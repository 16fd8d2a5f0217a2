//! The whitespace passes settle: run again on the overlay they have
//! left, they change no whitespace run.
use crate::dsl::{
    indent_patterns, spacing_patterns, IndentAction, IndentRule, RuleName, SpaceLoc, SpaceValue,
    SpacingRule,
};
use crate::laws::{
    lemma_indent_elements, lemma_initial_faithful, lemma_set_text_faithful,
    lemma_space_elements_faithful, lemma_spaced_is_blank, lemma_spacing_pass_faithful,
    lemma_spacing_rules_faithful,
};
use crate::engine::spacing::spaced;
use crate::engine::fmt_model::ModelView;
use crate::pattern::{matching_spec, Pattern};
use crate::text::{blank, count_newlines, has_newline, lemma_blank, lemma_count_has_newline};
use crate::tree::TreeView;
use vstd::prelude::*;

verus! {

impl TreeView {
    /// The outermost element at or above `e` that is preceded by as many
    /// tokens as `e`, going up as long as the count stays.
    pub open spec fn owner(self, e: int) -> int
        decreases e,
    {
        if self.elements[e].parent is Some && self.elements[e].parent->0 < e
            && self.elements[self.elements[e].parent->0 as int].first_token
            == self.elements[e].first_token {
            self.owner(self.elements[e].parent->0 as int)
        } else {
            e
        }
    }
}

impl ModelView {
    /// Whitespace run `i` reads the same in both overlays.
    pub open spec fn same_text(self, other: ModelView, i: int) -> bool {
        self.blocks[i].text == other.blocks[i].text
    }

    /// Whitespace run `i` holds as many line breaks in both overlays.
    pub open spec fn same_count(self, other: ModelView, i: int) -> bool {
        count_newlines(self.blocks[i].text) == count_newlines(other.blocks[i].text)
    }

    /// Both overlays lie over the same tree and hold the same line breaks.
    pub open spec fn same_breaks(self, other: ModelView) -> bool {
        &&& self.tree == other.tree
        &&& self.blocks.len() == other.blocks.len()
        &&& forall|i: int| 0 <= i < self.blocks.len() ==> #[trigger] self.same_count(other, i)
    }

    /// The whitespace runs in front of run `j` read the same in both
    /// overlays.
    pub open spec fn agree_below(self, other: ModelView, j: int) -> bool {
        forall|i: int| 0 <= i < j ==> #[trigger] self.same_text(other, i)
    }

    /// The element at place `w` of `walk` is one the indentation pass
    /// indents, and the run it indents is run `i`.
    pub open spec fn indents(self, walk: Seq<usize>, w: int, i: int) -> bool {
        self.needs_indent(walk[w] as int) && self.tree.elements[walk[w] as int].first_token == i
    }

    /// One of the first `n` elements of `walk` indents run `i`.
    pub open spec fn indented_by(self, walk: Seq<usize>, n: int, i: int) -> bool {
        exists|w: int| 0 <= w < n && #[trigger] self.indents(walk, w, i)
    }
}

/// Where the line breaks are the same, the same elements begin a line.
pub proof fn lemma_same_lines(a: ModelView, b: ModelView, e: int)
    requires
        a.wf(),
        a.same_breaks(b),
        0 <= e < a.tree.elements.len(),
    ensures
        a.starts_line(e) == b.starts_line(e),
        a.needs_indent(e) == b.needs_indent(e),
{
    let j = a.tree.elements[e].first_token as int;
    assert(a.tree.elements[e].first_token <= a.tree.elements[e].end_token <= a.tree.tokens.len());
    assert(a.same_count(b, j));
    lemma_count_has_newline(a.blocks[j].text);
    lemma_count_has_newline(b.blocks[j].text);
}

/// The text in front of a token depends on the whitespace runs up to the
/// token only.
pub proof fn lemma_prefix_agrees(a: ModelView, b: ModelView, j: int)
    requires
        a.tree == b.tree,
        0 <= j,
        a.agree_below(b, j + 1),
    ensures
        a.prefix(j) == b.prefix(j),
    decreases j,
{
    assert(a.same_text(b, j));
    if j > 0 {
        assert forall|i: int| 0 <= i < j implies #[trigger] a.same_text(b, i) by {}
        lemma_prefix_agrees(a, b, j - 1);
    } else {
        assert(a.same_text(b, 0));
    }
}

/// The resolved indent of an element depends on the whitespace runs up to
/// the element only.
pub proof fn lemma_resolved_agrees(a: ModelView, b: ModelView, anchors: Seq<Pattern>, e: int, j: int)
    requires
        a.wf(),
        a.same_breaks(b),
        0 <= e < a.tree.elements.len(),
        a.tree.elements[e].first_token < j,
        a.agree_below(b, j),
    ensures
        a.resolved_indent(anchors, e) == b.resolved_indent(anchors, e),
    decreases e,
{
    lemma_same_lines(a, b, e);
    let t = a.tree.elements[e].first_token as int;
    assert forall|i: int| 0 <= i < t + 1 implies #[trigger] a.same_text(b, i) by {}
    lemma_prefix_agrees(a, b, t);
    if !(a.starts_line(e) || a.is_anchor(anchors, e)) {
        if e > 0 {
            let p = a.tree.elements[e].parent->0 as int;
            assert(a.tree.elements[e].parent is Some);
            assert(a.tree.counted(p, e));
            lemma_resolved_agrees(a, b, anchors, p, j);
        }
    }
}

/// The column of the nearest anchor above an element depends on the
/// whitespace runs up to the element's parent only.
pub proof fn lemma_anchor_agrees(a: ModelView, b: ModelView, anchors: Seq<Pattern>, e: int, j: int)
    requires
        a.wf(),
        a.same_breaks(b),
        0 <= e < a.tree.elements.len(),
        e > 0 ==> a.tree.elements[a.tree.elements[e].parent->0 as int].first_token < j,
        a.agree_below(b, j),
    ensures
        a.anchor_column(anchors, e) == b.anchor_column(anchors, e),
    decreases e,
{
    if e > 0 {
        let p = a.tree.elements[e].parent->0 as int;
        assert(a.tree.elements[e].parent is Some);
        let t = a.tree.elements[p].first_token as int;
        assert forall|i: int| 0 <= i < t + 1 implies #[trigger] a.same_text(b, i) by {}
        lemma_prefix_agrees(a, b, t);
        if p > 0 {
            let pp = a.tree.elements[p].parent->0 as int;
            assert(a.tree.elements[p].parent is Some);
            assert(a.tree.counted(pp, p));
        }
        lemma_anchor_agrees(a, b, anchors, p, j);
    } else {
        assert(a.tree.elements[0].parent is None);
    }
}

/// The column an element is indented to depends on the whitespace runs up
/// to the element's parent only.
pub proof fn lemma_target_agrees(
    a: ModelView,
    b: ModelView,
    anchors: Seq<Pattern>,
    action: IndentAction,
    e: int,
    j: int,
)
    requires
        a.wf(),
        a.same_breaks(b),
        0 <= e < a.tree.elements.len(),
        e > 0 ==> a.tree.elements[a.tree.elements[e].parent->0 as int].first_token < j,
        a.agree_below(b, j),
    ensures
        a.default_target(anchors, e) == b.default_target(anchors, e),
        a.rule_target(anchors, action, e) == b.rule_target(anchors, action, e),
{
    if e > 0 {
        let p = a.tree.elements[e].parent->0 as int;
        assert(a.tree.elements[e].parent is Some);
        lemma_resolved_agrees(a, b, anchors, p, j);
    } else {
        assert(a.tree.elements[0].parent is None);
    }
    lemma_anchor_agrees(a, b, anchors, e, j);
}

/// The owner of an element is a node at or above it with the same count
/// of preceding tokens, and in a plain tree it does not begin where its
/// parent begins.
proof fn lemma_owner(tree: TreeView, e: int)
    requires
        tree.wf(),
        tree.plain(),
        0 <= e < tree.elements.len(),
    ensures
        0 <= tree.owner(e) <= e,
        tree.elements[tree.owner(e)].first_token == tree.elements[e].first_token,
        tree.owner(e) < e ==> !tree.elements[tree.owner(e)].is_token,
        tree.elements[tree.owner(e)].parent matches Some(p) ==> tree.elements[p as int].start
            != tree.elements[tree.owner(e)].start,
    decreases e,
{
    if e > 0 {
        let p = tree.elements[e].parent->0 as int;
        assert(tree.elements[e].parent is Some);
        if tree.elements[p].first_token == tree.elements[e].first_token {
            lemma_owner(tree, p);
        } else {
            assert(tree.aligned(e));
        }
    } else {
        assert(tree.elements[0].parent is None);
    }
}

/// Every non-whitespace element has its place in the walk.
pub proof fn lemma_walk_place(tree: TreeView, n: int, i: int) -> (w: int)
    requires
        0 <= i < n <= tree.elements.len() <= usize::MAX,
        !tree.is_whitespace(i),
    ensures
        0 <= w < tree.walk_upto(n).len(),
        tree.walk_upto(n)[w] == i,
    decreases n,
{
    if i == n - 1 {
        tree.walk_upto(n).len() - 1
    } else {
        lemma_walk_place(tree, n - 1, i)
    }
}

/// What indenting a line does to the overlay, for a run that holds a
/// line break: the run ends up as its line breaks followed by the
/// indentation, and nothing else changes.
pub proof fn lemma_set_indent_step(m: ModelView, j: int, width: nat, reason: Option<crate::dsl::RuleName>)
    requires
        m.wf(),
        0 <= j < m.blocks.len(),
        has_newline(m.blocks[j].text),
    ensures
        m.set_indent(j, width, reason).wf(),
        m.set_indent(j, width, reason).tree == m.tree,
        m.set_indent(j, width, reason).blocks.len() == m.blocks.len(),
        m.set_indent(j, width, reason).blocks[j].text == blank(
            count_newlines(m.blocks[j].text),
            width,
        ),
        count_newlines(m.set_indent(j, width, reason).blocks[j].text) == count_newlines(
            m.blocks[j].text,
        ),
        forall|i: int|
            0 <= i < m.blocks.len() && i != j ==> #[trigger] m.set_indent(j, width, reason).blocks[i]
                == m.blocks[i],
{
    let r = m.set_indent(j, width, reason);
    lemma_blank(count_newlines(m.blocks[j].text), width);
    lemma_count_has_newline(m.blocks[j].text);
    assert forall|t: int| 0 <= t < r.fixes.len() implies #[trigger] r.fixes_ordered(t) by {
        assert(m.fixes_ordered(t));
    }
}

impl ModelView {
    /// Where the two runs of the indentation pass stand on whitespace run
    /// `i` after `n` elements: if the run has been indented, it reads the
    /// same in both; if not, it reads in each as it did at the start.
    pub open spec fn tracks(
        self,
        other: ModelView,
        first: ModelView,
        second: ModelView,
        walk: Seq<usize>,
        n: int,
        i: int,
    ) -> bool {
        if first.indented_by(walk, n, i) {
            self.same_text(other, i)
        } else {
            self.same_text(first, i) && other.same_text(second, i)
        }
    }
}

/// One element of the indentation pass, on two overlays that agree on
/// everything the element's indent depends on.
proof fn lemma_indent_step_agrees(
    a: ModelView,
    b: ModelView,
    rules: Seq<IndentRule>,
    anchors: Seq<Pattern>,
    e: int,
)
    requires
        a.wf(),
        b.wf(),
        a.same_breaks(b),
        0 <= e < a.tree.elements.len(),
        a.agree_below(b, a.tree.elements[e].first_token as int),
        e > 0 && a.tree.elements[a.tree.elements[e].parent->0 as int].first_token
            == a.tree.elements[e].first_token ==> a.same_text(
            b,
            a.tree.elements[e].first_token as int,
        ),
    ensures
        a.needs_indent(e) == b.needs_indent(e),
        match (a.indent_element(rules, anchors, e), b.indent_element(rules, anchors, e)) {
            (Ok(x), Ok(y)) => {
                &&& x.wf()
                &&& y.wf()
                &&& x.same_breaks(a)
                &&& y.same_breaks(a)
                &&& a.needs_indent(e) ==> x.same_text(y, a.tree.elements[e].first_token as int)
                &&& !a.needs_indent(e) ==> x == a && y == b
                &&& forall|i: int|
                    0 <= i < a.blocks.len() && i != a.tree.elements[e].first_token ==> (
                    #[trigger] x.blocks[i]) == a.blocks[i] && y.blocks[i] == b.blocks[i]
            },
            (Err(x), Err(y)) => x == y,
            _ => false,
        },
{
    let j = a.tree.elements[e].first_token as int;
    assert(a.tree.elements[e].first_token <= a.tree.elements[e].end_token <= a.tree.tokens.len());
    lemma_same_lines(a, b, e);
    let matched = matching_spec(indent_patterns(rules), a.tree, e);
    if a.needs_indent(e) && matched.len() < 2 {
        let bound = if e > 0 && a.tree.elements[a.tree.elements[e].parent->0 as int].first_token
            == a.tree.elements[e].first_token {
            j + 1
        } else {
            j
        };
        assert forall|i: int| 0 <= i < bound implies #[trigger] a.same_text(b, i) by {}
        if e > 0 {
            let p = a.tree.elements[e].parent->0 as int;
            assert(a.tree.elements[e].parent is Some);
            assert(a.tree.counted(p, e));
        }
        let action = if matched.len() == 1 {
            rules[matched[0] as int].action
        } else {
            IndentAction::Anchor
        };
        lemma_target_agrees(a, b, anchors, action, e, bound);
        let (width, reason) = if matched.len() == 1 {
            (a.rule_target(anchors, action, e), rules[matched[0] as int].name)
        } else {
            (a.default_target(anchors, e), None)
        };
        lemma_set_indent_step(a, j, width, reason);
        lemma_set_indent_step(b, j, width, reason);
        let x = a.set_indent(j, width, reason);
        let y = b.set_indent(j, width, reason);
        assert(a.same_count(b, j));
        assert forall|i: int| 0 <= i < x.blocks.len() implies #[trigger] x.same_count(a, i) by {}
        assert forall|i: int| 0 <= i < y.blocks.len() implies #[trigger] y.same_count(a, i) by {
            assert(a.same_count(b, i));
        }
    } else if !a.needs_indent(e) {
        assert forall|i: int| 0 <= i < a.blocks.len() implies #[trigger] a.same_count(a, i) by {}
        assert forall|i: int| 0 <= i < b.blocks.len() implies #[trigger] b.same_count(a, i) by {
            assert(a.same_count(b, i));
        }
    }
}

/// Two runs of the indentation pass on overlays with the same line
/// breaks, which read the same wherever no element indents, stay in step:
/// they fail alike, or every whitespace run that has been indented reads
/// the same in both.
proof fn lemma_indent_steps_agree(
    first: ModelView,
    second: ModelView,
    rules: Seq<IndentRule>,
    anchors: Seq<Pattern>,
    n: int,
)
    requires
        first.wf(),
        second.wf(),
        first.tree.plain(),
        first.same_breaks(second),
        0 <= n <= first.tree.walk().len(),
        forall|i: int|
            0 <= i < first.blocks.len() && !first.indented_by(
                first.tree.walk(),
                first.tree.walk().len() as int,
                i,
            ) ==> #[trigger] first.same_text(second, i),
    ensures
        match (
            first.indent_elements(rules, anchors, first.tree.walk(), n),
            second.indent_elements(rules, anchors, first.tree.walk(), n),
        ) {
            (Ok(a), Ok(b)) => {
                &&& a.wf()
                &&& b.wf()
                &&& a.same_breaks(first)
                &&& b.same_breaks(first)
                &&& forall|i: int|
                    0 <= i < first.blocks.len() ==> #[trigger] a.tracks(
                        b,
                        first,
                        second,
                        first.tree.walk(),
                        n,
                        i,
                    )
            },
            (Err(x), Err(y)) => x == y,
            _ => false,
        },
    decreases n,
{
    let tree = first.tree;
    let walk = tree.walk();
    let total = walk.len() as int;
    tree.lemma_walk_upto(tree.elements.len() as int);
    if n <= 0 {
        assert forall|i: int| 0 <= i < first.blocks.len() implies #[trigger] first.same_count(
            first,
            i,
        ) by {}
        assert forall|i: int| 0 <= i < first.blocks.len() implies #[trigger] second.same_count(
            first,
            i,
        ) by {
            assert(first.same_count(second, i));
        }
        assert forall|i: int| 0 <= i < first.blocks.len() implies #[trigger] first.tracks(
            second,
            first,
            second,
            walk,
            n,
            i,
        ) by {}
    } else {
        lemma_indent_steps_agree(first, second, rules, anchors, n - 1);
        let e = walk[n - 1] as int;
        let j = tree.elements[e].first_token as int;
        assert(tree.elements[e].first_token <= tree.elements[e].end_token <= tree.tokens.len());
        match (
            first.indent_elements(rules, anchors, walk, n - 1),
            second.indent_elements(rules, anchors, walk, n - 1),
        ) {
            (Ok(a), Ok(b)) => {
                // The two overlays have the same line breaks.
                assert forall|i: int| 0 <= i < a.blocks.len() implies #[trigger] a.same_count(
                    b,
                    i,
                ) by {
                    assert(a.same_count(first, i));
                    assert(b.same_count(first, i));
                }
                lemma_same_lines(a, first, e);
                // They agree on every run in front of the element's own.
                assert forall|i: int| 0 <= i < j implies #[trigger] a.same_text(b, i) by {
                    assert(a.tracks(b, first, second, walk, n - 1, i));
                    if !first.indented_by(walk, n - 1, i) {
                        lemma_never_indented(first, n - 1, i);
                        assert(first.same_text(second, i));
                    }
                }
                // They agree on the element's own run if the parent shares it.
                if e > 0 && tree.elements[tree.elements[e].parent->0 as int].first_token
                    == tree.elements[e].first_token && a.needs_indent(e) {
                    lemma_owner_indents(first, n - 1);
                    assert(a.tracks(b, first, second, walk, n - 1, j));
                }
                if a.needs_indent(e) {
                    lemma_indent_step_agrees(a, b, rules, anchors, e);
                } else {
                    lemma_same_lines(a, b, e);
                }
                if let (Ok(x), Ok(y)) = (
                    a.indent_element(rules, anchors, e),
                    b.indent_element(rules, anchors, e),
                ) {
                    assert forall|i: int| 0 <= i < first.blocks.len() implies #[trigger] x.same_count(
                        first,
                        i,
                    ) by {
                        assert(a.same_count(first, i));
                        if a.needs_indent(e) {
                            assert(x.same_count(a, i));
                        }
                    }
                    assert forall|i: int| 0 <= i < first.blocks.len() implies #[trigger] y.same_count(
                        first,
                        i,
                    ) by {
                        assert(a.same_count(first, i));
                        assert(b.same_count(first, i));
                        if a.needs_indent(e) {
                            assert(y.same_count(a, i));
                        }
                    }
                    assert forall|i: int| 0 <= i < first.blocks.len() implies #[trigger] x.tracks(
                        y,
                        first,
                        second,
                        walk,
                        n,
                        i,
                    ) by {
                        assert(a.tracks(b, first, second, walk, n - 1, i));
                        lemma_indented_by_step(first, walk, n, i);
                    }
                }
            },
            (Err(x), Err(y)) => {},
            _ => {},
        }
    }
}

/// A run that none of the first `n` elements indents, and that lies in
/// front of the run of element `n`, is indented by no element at all.
proof fn lemma_never_indented(m: ModelView, n: int, i: int)
    requires
        m.tree.wf(),
        0 <= n < m.tree.walk().len(),
        0 <= i < m.tree.elements[m.tree.walk()[n] as int].first_token,
        !m.indented_by(m.tree.walk(), n, i),
    ensures
        !m.indented_by(m.tree.walk(), m.tree.walk().len() as int, i),
{
    let walk = m.tree.walk();
    m.tree.lemma_walk_upto(m.tree.elements.len() as int);
    if m.indented_by(walk, walk.len() as int, i) {
        let w = choose|w: int| 0 <= w < walk.len() && #[trigger] m.indents(walk, w, i);
        if w < n {
            assert(m.indents(walk, w, i));
        } else if w > n {
            assert(walk[n] < walk[w]);
            assert(m.tree.counted(walk[n] as int, walk[w] as int));
        }
        assert(false);
    }
}

/// One element more: the runs indented by the first `n` elements are those
/// indented by the first `n - 1` and the run of element `n - 1`, if that
/// element is indented.
proof fn lemma_indented_by_step(m: ModelView, walk: Seq<usize>, n: int, i: int)
    requires
        0 < n <= walk.len(),
    ensures
        m.indented_by(walk, n, i) <==> m.indented_by(walk, n - 1, i) || m.indents(walk, n - 1, i),
{
    if m.indented_by(walk, n, i) {
        let w = choose|w: int| 0 <= w < n && #[trigger] m.indents(walk, w, i);
        if w < n - 1 {
            assert(m.indents(walk, w, i));
        }
    }
    if m.indented_by(walk, n - 1, i) {
        let w = choose|w: int| 0 <= w < n - 1 && #[trigger] m.indents(walk, w, i);
        assert(m.indents(walk, w, i));
    }
}

/// If the element at place `n` of the walk begins a line and shares its
/// whitespace run with its parent, an element before it indents that run.
proof fn lemma_owner_indents(m: ModelView, n: int)
    requires
        m.wf(),
        m.tree.plain(),
        0 <= n < m.tree.walk().len(),
        m.tree.walk()[n] > 0,
        m.starts_line(m.tree.walk()[n] as int),
        m.tree.elements[m.tree.elements[m.tree.walk()[n] as int].parent->0 as int].first_token
            == m.tree.elements[m.tree.walk()[n] as int].first_token,
    ensures
        m.indented_by(
            m.tree.walk(),
            n,
            m.tree.elements[m.tree.walk()[n] as int].first_token as int,
        ),
{
    let tree = m.tree;
    let walk = tree.walk();
    tree.lemma_walk_upto(tree.elements.len() as int);
    let e = walk[n] as int;
    let j = tree.elements[e].first_token as int;
    let p = tree.elements[e].parent->0 as int;
    assert(tree.elements[e].parent is Some);
    lemma_owner(tree, p);
    let o = tree.owner(p);
    assert(!tree.elements[p].is_token);
    assert(!tree.is_whitespace(o));
    let w = lemma_walk_place(tree, tree.elements.len() as int, o);
    if w >= n {
        if w > n {
            assert(walk[n] < walk[w]);
        }
        assert(false);
    }
    assert(m.needs_indent(o));
    assert(m.indents(walk, w, j));
}

/// What a whitespace run reading `text` reads after the directive `value`,
/// for a run that has to keep its line break (`keep_break`) or need not.
pub open spec fn directed(keep_break: bool, value: SpaceValue, text: Seq<u8>) -> Seq<u8> {
    let next = spaced(value, text);
    if keep_break && !has_newline(next) {
        text
    } else {
        next
    }
}

/// What a whitespace run reading `text` reads after the directives
/// `values`, applied in order.
pub open spec fn directed_all(keep_break: bool, values: Seq<SpaceValue>, text: Seq<u8>) -> Seq<u8>
    decreases values.len(),
{
    if values.len() == 0 {
        text
    } else {
        directed(keep_break, values.last(), directed_all(keep_break, values.drop_last(), text))
    }
}

/// What a list of directives amounts to.
pub enum Summary {
    /// Whatever the run read before, it reads this afterwards.
    Constant(Seq<u8>),
    /// A run with at least `need` line breaks, and at least one, stays as
    /// it is. A run with fewer gets `need`. With `need` zero, a run without
    /// a line break becomes `flat`, or stays if there is no `flat`.
    Keeps { need: nat, flat: Option<Seq<u8>> },
}

/// The summary of a list of directives.
pub open spec fn summary(keep_break: bool, values: Seq<SpaceValue>) -> Summary
    decreases values.len(),
{
    if values.len() == 0 {
        Summary::Keeps { need: 0, flat: None }
    } else {
        let before = summary(keep_break, values.drop_last());
        let value = values.last();
        match before {
            Summary::Constant(text) => Summary::Constant(directed(keep_break, value, text)),
            Summary::Keeps { need, flat } => match value {
                SpaceValue::Single | SpaceValue::NoSpace => if keep_break {
                    before
                } else {
                    Summary::Constant(spaced(value, Seq::empty()))
                },
                SpaceValue::SingleOptionalNewline | SpaceValue::NoSpaceOptionalNewline => if need
                    == 0 {
                    Summary::Keeps { need: 0, flat: Some(spaced(value, Seq::empty())) }
                } else {
                    before
                },
                SpaceValue::Newlines(c) => Summary::Keeps {
                    need: if need >= c {
                        need
                    } else {
                        c as nat
                    },
                    flat,
                },
            },
        }
    }
}

/// `summary` says what `directed_all` does. A run that has to keep its
/// line break is taken to hold one.
pub proof fn lemma_summary(keep_break: bool, values: Seq<SpaceValue>, text: Seq<u8>)
    requires
        keep_break ==> has_newline(text),
    ensures
        keep_break ==> has_newline(directed_all(keep_break, values, text)),
        match summary(keep_break, values) {
            Summary::Constant(fixed) => directed_all(keep_break, values, text) == fixed,
            Summary::Keeps { need, flat } => {
                &&& count_newlines(text) >= need && count_newlines(text) > 0 ==> directed_all(
                    keep_break,
                    values,
                    text,
                ) == text
                &&& count_newlines(text) < need ==> count_newlines(
                    directed_all(keep_break, values, text),
                ) == need
                &&& need == 0 && count_newlines(text) == 0 ==> count_newlines(
                    directed_all(keep_break, values, text),
                ) == 0 && directed_all(keep_break, values, text) == match flat {
                    Some(fixed) => fixed,
                    None => text,
                }
            },
        },
    decreases values.len(),
{
    lemma_count_has_newline(text);
    if values.len() > 0 {
        let rest = values.drop_last();
        let value = values.last();
        lemma_summary(keep_break, rest, text);
        let mid = directed_all(keep_break, rest, text);
        lemma_count_has_newline(mid);
        lemma_blank(0, 0);
        lemma_blank(0, 1);
        lemma_count_has_newline(Seq::<u8>::empty());
        if let SpaceValue::Newlines(c) = value {
            lemma_blank(c as nat, crate::text::indent_width(mid));
        }
        lemma_count_has_newline(spaced(value, mid));
        lemma_count_has_newline(directed(keep_break, value, mid));
        if let Summary::Constant(fixed) = summary(keep_break, rest) {
            assert(mid == fixed);
        }
    }
}

/// Applying a list of directives twice is the same as applying it once.
pub proof fn lemma_directed_all_idempotent(keep_break: bool, values: Seq<SpaceValue>, text: Seq<u8>)
    requires
        keep_break ==> has_newline(text),
    ensures
        directed_all(keep_break, values, directed_all(keep_break, values, text)) == directed_all(
            keep_break,
            values,
            text,
        ),
{
    let once = directed_all(keep_break, values, text);
    lemma_summary(keep_break, values, text);
    lemma_summary(keep_break, values, once);
    lemma_count_has_newline(text);
    lemma_count_has_newline(once);
}

/// A list of directives that has left a run with line breaks leaves every
/// run with as many line breaks as it is.
pub proof fn lemma_directed_all_keeps_breaks(
    keep_break: bool,
    values: Seq<SpaceValue>,
    text: Seq<u8>,
    other: Seq<u8>,
)
    requires
        keep_break ==> has_newline(text),
        count_newlines(other) == count_newlines(directed_all(keep_break, values, text)),
        count_newlines(other) > 0,
    ensures
        count_newlines(directed_all(keep_break, values, other)) == count_newlines(other),
{
    lemma_count_has_newline(text);
    lemma_count_has_newline(other);
    lemma_summary(keep_break, values, text);
    lemma_summary(keep_break, values, other);
}

/// Directives applied one list after another.
pub proof fn lemma_directed_all_concat(
    keep_break: bool,
    a: Seq<SpaceValue>,
    b: Seq<SpaceValue>,
    text: Seq<u8>,
)
    ensures
        directed_all(keep_break, a + b, text) == directed_all(
            keep_break,
            b,
            directed_all(keep_break, a, text),
        ),
    decreases b.len(),
{
    if b.len() == 0 {
        assert(a + b =~= a);
    } else {
        assert((a + b).drop_last() =~= a + b.drop_last());
        lemma_directed_all_concat(keep_break, a, b.drop_last(), text);
    }
}

impl TreeView {
    /// The directives that `rule`, applied to element `e`, addresses to
    /// whitespace run `i`.
    pub open spec fn rule_values(self, rule: SpacingRule, e: int, i: int) -> Seq<SpaceValue> {
        (if rule.loc != SpaceLoc::After && self.elements[e].first_token == i {
            seq![rule.value]
        } else {
            Seq::empty()
        }) + (if rule.loc != SpaceLoc::Before && self.elements[e].end_token == i {
            seq![rule.value]
        } else {
            Seq::empty()
        })
    }

    /// The directives that the first `n` of the rules listed in `matched`,
    /// applied to element `e`, address to whitespace run `i`.
    pub open spec fn rules_values(
        self,
        rules: Seq<SpacingRule>,
        matched: Seq<usize>,
        e: int,
        n: int,
        i: int,
    ) -> Seq<SpaceValue>
        decreases n,
    {
        if n <= 0 {
            Seq::empty()
        } else {
            self.rules_values(rules, matched, e, n - 1, i) + self.rule_values(
                rules[matched[n - 1] as int],
                e,
                i,
            )
        }
    }

    /// The directives that the spacing pass addresses to whitespace run
    /// `i` while it visits the first `n` elements of `walk`.
    pub open spec fn walk_values(
        self,
        rules: Seq<SpacingRule>,
        walk: Seq<usize>,
        n: int,
        i: int,
    ) -> Seq<SpaceValue>
        decreases n,
    {
        if n <= 0 {
            Seq::empty()
        } else {
            let e = walk[n - 1] as int;
            let matched = matching_spec(spacing_patterns(rules), self, e);
            self.walk_values(rules, walk, n - 1, i) + self.rules_values(
                rules,
                matched,
                e,
                matched.len() as int,
                i,
            )
        }
    }
}

/// A single directive, as a list.
proof fn lemma_directed_one(keep_break: bool, value: SpaceValue, text: Seq<u8>)
    ensures
        directed_all(keep_break, seq![value], text) == directed(keep_break, value, text),
        directed_all(keep_break, Seq::empty(), text) == text,
{
    let one = seq![value];
    assert(one.len() == 1);
    assert(one.drop_last() =~= Seq::<SpaceValue>::empty());
    assert(one.last() == value);
    assert(directed_all(keep_break, Seq::<SpaceValue>::empty(), text) == text);
    assert(directed_all(keep_break, one, text) == directed(
        keep_break,
        one.last(),
        directed_all(keep_break, one.drop_last(), text),
    ));
}

/// One directive on one run of the overlay.
proof fn lemma_ensure_space_directs(
    m: ModelView,
    j: int,
    value: SpaceValue,
    reason: Option<RuleName>,
    i: int,
)
    requires
        m.faithful(),
        0 <= j < m.blocks.len(),
        0 <= i < m.blocks.len(),
    ensures
        m.ensure_space(j, value, reason).faithful(),
        m.ensure_space(j, value, reason).tree == m.tree,
        m.ensure_space(j, value, reason).blocks[i].text == if i == j {
            directed(m.tree.semantic_newline(j), value, m.blocks[j].text)
        } else {
            m.blocks[i].text
        },
{
    lemma_spaced_is_blank(value, m.blocks[j].text);
    lemma_set_text_faithful(m, j, spaced(value, m.blocks[j].text), reason);
}

/// One rule at one element, seen from whitespace run `i`.
proof fn lemma_rule_directs(m: ModelView, rule: SpacingRule, e: int, i: int)
    requires
        m.faithful(),
        0 <= e < m.tree.elements.len(),
        0 <= i < m.blocks.len(),
    ensures
        m.apply_spacing_rule(rule, e).blocks[i].text == directed_all(
            m.tree.semantic_newline(i),
            m.tree.rule_values(rule, e, i),
            m.blocks[i].text,
        ),
{
    let keep = m.tree.semantic_newline(i);
    let front_j = m.tree.elements[e].first_token as int;
    let back_j = m.tree.elements[e].end_token as int;
    assert(m.tree.elements[e].first_token <= m.tree.elements[e].end_token <= m.tree.tokens.len());
    let front_values = if rule.loc != SpaceLoc::After && front_j == i {
        seq![rule.value]
    } else {
        Seq::empty()
    };
    let back_values = if rule.loc != SpaceLoc::Before && back_j == i {
        seq![rule.value]
    } else {
        Seq::empty()
    };
    let front = if rule.loc != SpaceLoc::After {
        m.ensure_space(front_j, rule.value, rule.name)
    } else {
        m
    };
    lemma_ensure_space_directs(m, front_j, rule.value, rule.name, i);
    lemma_directed_one(keep, rule.value, m.blocks[i].text);
    assert(front.blocks[i].text == directed_all(keep, front_values, m.blocks[i].text));
    lemma_ensure_space_directs(front, back_j, rule.value, rule.name, i);
    lemma_directed_one(keep, rule.value, front.blocks[i].text);
    lemma_directed_all_concat(keep, front_values, back_values, m.blocks[i].text);
}

/// The rules that match one element, seen from whitespace run `i`.
proof fn lemma_rules_direct(
    m: ModelView,
    rules: Seq<SpacingRule>,
    matched: Seq<usize>,
    e: int,
    n: int,
    i: int,
)
    requires
        m.faithful(),
        0 <= e < m.tree.elements.len(),
        0 <= i < m.blocks.len(),
    ensures
        m.apply_spacing_rules(rules, matched, e, n).blocks[i].text == directed_all(
            m.tree.semantic_newline(i),
            m.tree.rules_values(rules, matched, e, n, i),
            m.blocks[i].text,
        ),
    decreases n,
{
    if n > 0 {
        lemma_rules_direct(m, rules, matched, e, n - 1, i);
        lemma_spacing_rules_faithful(m, rules, matched, e, n - 1);
        let before = m.apply_spacing_rules(rules, matched, e, n - 1);
        assert(before.blocks.len() == m.blocks.len());
        lemma_rule_directs(before, rules[matched[n - 1] as int], e, i);
        lemma_directed_all_concat(
            m.tree.semantic_newline(i),
            m.tree.rules_values(rules, matched, e, n - 1, i),
            m.tree.rule_values(rules[matched[n - 1] as int], e, i),
            m.blocks[i].text,
        );
    } else {
        lemma_directed_one(m.tree.semantic_newline(i), SpaceValue::Single, m.blocks[i].text);
    }
}

/// The spacing pass, seen from whitespace run `i`: the run is taken
/// through the directives addressed to it and sees nothing of the other
/// runs.
proof fn lemma_walk_directs(
    m: ModelView,
    rules: Seq<SpacingRule>,
    walk: Seq<usize>,
    n: int,
    i: int,
)
    requires
        m.faithful(),
        0 <= n <= walk.len(),
        forall|k: int| 0 <= k < walk.len() ==> (#[trigger] walk[k]) < m.tree.elements.len(),
        0 <= i < m.blocks.len(),
    ensures
        m.space_elements(rules, walk, n).blocks[i].text == directed_all(
            m.tree.semantic_newline(i),
            m.tree.walk_values(rules, walk, n, i),
            m.blocks[i].text,
        ),
    decreases n,
{
    if n > 0 {
        lemma_walk_directs(m, rules, walk, n - 1, i);
        lemma_space_elements_faithful(m, rules, walk, n - 1);
        let before = m.space_elements(rules, walk, n - 1);
        assert(before.blocks.len() == m.blocks.len());
        let e = walk[n - 1] as int;
        let matched = matching_spec(spacing_patterns(rules), m.tree, e);
        lemma_rules_direct(before, rules, matched, e, matched.len() as int, i);
        lemma_directed_all_concat(
            m.tree.semantic_newline(i),
            m.tree.walk_values(rules, walk, n - 1, i),
            m.tree.rules_values(rules, matched, e, matched.len() as int, i),
            m.blocks[i].text,
        );
    } else {
        lemma_directed_one(m.tree.semantic_newline(i), SpaceValue::Single, m.blocks[i].text);
    }
}

/// What the spacing pass does to one whitespace run: it takes the run
/// through the directives that the matching rules address to it, in the
/// order in which the elements are visited, and the run sees nothing of
/// the other runs.
pub proof fn lemma_spacing_pass_directs(m: ModelView, rules: Seq<SpacingRule>, i: int)
    requires
        m.faithful(),
        0 <= i < m.blocks.len(),
    ensures
        m.spacing_pass(rules).blocks[i].text == directed_all(
            m.tree.semantic_newline(i),
            m.tree.walk_values(rules, m.tree.walk(), m.tree.walk().len() as int, i),
            m.blocks[i].text,
        ),
{
    m.tree.lemma_walk_upto(m.tree.elements.len() as int);
    lemma_walk_directs(m, rules, m.tree.walk(), m.tree.walk().len() as int, i);
}

/// A run that some element indents holds a line break.
proof fn lemma_indented_has_break(m: ModelView, i: int)
    requires
        m.indented_by(m.tree.walk(), m.tree.walk().len() as int, i),
    ensures
        has_newline(m.blocks[i].text),
{
    let walk = m.tree.walk();
    let w = choose|w: int| 0 <= w < walk.len() && #[trigger] m.indents(walk, w, i);
    assert(m.starts_line(walk[w] as int));
}

/// Two runs of the indentation pass, as `lemma_indent_steps_agree` has
/// them, end alike: both fail with the same failure, or both succeed and
/// leave every whitespace run with the same text.
proof fn lemma_indentation_agrees(
    first: ModelView,
    second: ModelView,
    rules: Seq<IndentRule>,
    anchors: Seq<Pattern>,
)
    requires
        first.wf(),
        second.wf(),
        first.tree.plain(),
        first.same_breaks(second),
        forall|i: int|
            0 <= i < first.blocks.len() && !first.indented_by(
                first.tree.walk(),
                first.tree.walk().len() as int,
                i,
            ) ==> #[trigger] first.same_text(second, i),
    ensures
        match (first.indentation_pass(rules, anchors), second.indentation_pass(rules, anchors)) {
            (Ok(a), Ok(b)) => a.wf() && b.wf() && a.blocks.len() == first.blocks.len()
                && b.blocks.len() == first.blocks.len() && a.same_breaks(first) && a.agree_below(
                b,
                first.blocks.len() as int,
            ) && forall|i: int|
                0 <= i < first.blocks.len() && !first.indented_by(
                    first.tree.walk(),
                    first.tree.walk().len() as int,
                    i,
                ) ==> #[trigger] a.same_text(first, i),
            (Err(x), Err(y)) => x == y,
            _ => false,
        },
{
    let walk = first.tree.walk();
    let total = walk.len() as int;
    lemma_indent_steps_agree(first, second, rules, anchors, total);
    if let (Ok(a), Ok(b)) = (
        first.indentation_pass(rules, anchors),
        second.indentation_pass(rules, anchors),
    ) {
        assert forall|i: int| 0 <= i < first.blocks.len() implies #[trigger] a.same_text(b, i) by {
            assert(a.tracks(b, first, second, walk, total, i));
            if !first.indented_by(walk, total, i) {
                assert(first.same_text(second, i));
            }
        }
        assert forall|i: int|
            0 <= i < first.blocks.len() && !first.indented_by(walk, total, i) implies #[trigger] a.same_text(
            first,
            i,
        ) by {
            assert(a.tracks(b, first, second, walk, total, i));
        }
    }
}

/// The indentation pass settles: run again on the overlay it has left, it
/// succeeds and changes no whitespace run.
pub proof fn lemma_indentation_settles(m: ModelView, rules: Seq<IndentRule>, anchors: Seq<Pattern>)
    requires
        m.wf(),
        m.tree.plain(),
    ensures
        m.indentation_pass(rules, anchors) matches Ok(once) ==> (once.indentation_pass(
            rules,
            anchors,
        ) matches Ok(twice) && twice.blocks.len() == once.blocks.len() && twice.agree_below(
            once,
            once.blocks.len() as int,
        )),
{
    assert forall|i: int| 0 <= i < m.blocks.len() implies #[trigger] m.same_count(m, i) by {}
    lemma_indentation_agrees(m, m, rules, anchors);
    if let Ok(once) = m.indentation_pass(rules, anchors) {
        assert forall|i: int| 0 <= i < m.blocks.len() implies #[trigger] m.same_count(once, i) by {
            assert(once.same_count(m, i));
        }
        assert forall|i: int|
            0 <= i < m.blocks.len() && !m.indented_by(
                m.tree.walk(),
                m.tree.walk().len() as int,
                i,
            ) implies #[trigger] m.same_text(once, i) by {
            assert(once.same_text(m, i));
        }
        lemma_indentation_agrees(m, once, rules, anchors);
        if let Ok(twice) = once.indentation_pass(rules, anchors) {
            assert forall|i: int| 0 <= i < once.blocks.len() implies #[trigger] twice.same_text(
                once,
                i,
            ) by {
                assert(once.same_text(twice, i));
            }
        }
    }
}

/// The whitespace passes settle. If the spacing pass and the indentation
/// pass succeed on a plain tree, then run again on the overlay they have
/// left they succeed again and change no whitespace run: whitespace that
/// the rules have shaped is whitespace the rules leave alone.
pub proof fn lemma_whitespace_settles(
    tree: TreeView,
    spacing: Seq<SpacingRule>,
    indent: Seq<IndentRule>,
    anchors: Seq<Pattern>,
)
    requires
        tree.wf(),
        tree.plain(),
    ensures
        ModelView::initial(tree).spacing_pass(spacing).indentation_pass(indent, anchors) matches Ok(
            once,
        ) ==> (once.spacing_pass(spacing).indentation_pass(indent, anchors) matches Ok(twice)
            && twice.blocks.len() == once.blocks.len() && twice.agree_below(
            once,
            once.blocks.len() as int,
        )),
{
    let start = ModelView::initial(tree);
    let walk = tree.walk();
    let total = walk.len() as int;
    lemma_initial_faithful(tree);
    tree.lemma_walk_upto(tree.elements.len() as int);
    let spaced_once = start.spacing_pass(spacing);
    lemma_spacing_pass_faithful(start, spacing);
    lemma_indent_elements(spaced_once, indent, anchors, walk, total);
    assert forall|i: int| 0 <= i < spaced_once.blocks.len() implies #[trigger] spaced_once.same_count(
        spaced_once,
        i,
    ) by {}
    lemma_indentation_agrees(spaced_once, spaced_once, indent, anchors);
    if let Ok(once) = spaced_once.indentation_pass(indent, anchors) {
        let spaced_twice = once.spacing_pass(spacing);
        lemma_spacing_pass_faithful(once, spacing);
        assert(spaced_twice.blocks.len() == spaced_once.blocks.len());
        assert forall|i: int| 0 <= i < spaced_once.blocks.len() implies #[trigger] spaced_once.same_count(
            spaced_twice,
            i,
        ) && (!spaced_once.indented_by(walk, total, i) ==> spaced_once.same_text(spaced_twice, i)) by {
            let keep = tree.semantic_newline(i);
            let values = tree.walk_values(spacing, walk, total, i);
            lemma_walk_directs(start, spacing, walk, total, i);
            lemma_walk_directs(once, spacing, walk, total, i);
            assert(once.same_count(spaced_once, i));
            if spaced_once.indented_by(walk, total, i) {
                lemma_indented_has_break(spaced_once, i);
                lemma_count_has_newline(spaced_once.blocks[i].text);
                lemma_directed_all_keeps_breaks(
                    keep,
                    values,
                    start.blocks[i].text,
                    once.blocks[i].text,
                );
            } else {
                assert(once.same_text(spaced_once, i));
                lemma_directed_all_idempotent(keep, values, start.blocks[i].text);
            }
        }
        assert forall|i: int|
            0 <= i < spaced_once.blocks.len() && !spaced_once.indented_by(
                walk,
                total,
                i,
            ) implies #[trigger] spaced_once.same_text(spaced_twice, i) by {
            assert(spaced_once.same_count(spaced_twice, i));
        }
        lemma_indentation_agrees(spaced_once, spaced_twice, indent, anchors);
        if let Ok(twice) = spaced_twice.indentation_pass(indent, anchors) {
            assert forall|i: int| 0 <= i < once.blocks.len() implies #[trigger] twice.same_text(
                once,
                i,
            ) by {
                assert(once.same_text(twice, i));
            }
        }
    }
}

} // verus!
