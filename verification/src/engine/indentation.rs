//! Second pass: every element that begins a line after the spacing pass
//! gets its leading whitespace, from the single indentation rule that
//! matches it or from the default policy.
use crate::dsl::{indent_patterns, IndentAction, IndentDsl, IndentRule};
use crate::engine::fmt_model::{clip, BlockPosition, FmtModel, ModelView};
use crate::engine::FormatError;
use crate::pattern::{lemma_matching_upto, matching_spec, Pattern, PatternSet};
use crate::text::{has_newline, sat_add, saturating_sum};
use vstd::prelude::*;

verus! {

/// Width of one level of indentation, in columns.
pub const INDENT_SIZE: usize = 2;

impl ModelView {
    /// Element `e` begins a line: the whitespace in front of it holds a
    /// line break.
    pub open spec fn starts_line(self, e: int) -> bool {
        has_newline(self.blocks[self.tree.elements[e].first_token as int].text)
    }

    /// Some anchor pattern holds of element `e`.
    pub open spec fn is_anchor(self, anchors: Seq<Pattern>, e: int) -> bool {
        matching_spec(anchors, self.tree, e).len() > 0
    }

    /// The column at which element `e` begins.
    pub open spec fn element_column(self, e: int) -> nat {
        clip(self.column(self.tree.elements[e].first_token as int))
    }

    /// The resolved indent of element `e`: its own column if it begins a
    /// line or is an anchor, else the resolved indent of its parent, and
    /// zero for a root that does neither.
    pub open spec fn resolved_indent(self, anchors: Seq<Pattern>, e: int) -> nat
        decreases e,
    {
        if self.starts_line(e) || self.is_anchor(anchors, e) {
            self.element_column(e)
        } else if self.tree.elements[e].parent is Some && self.tree.elements[e].parent->0 < e {
            self.resolved_indent(anchors, self.tree.elements[e].parent->0 as int)
        } else {
            0
        }
    }

    /// The column of the nearest proper ancestor of `e` that is an anchor.
    pub open spec fn anchor_column(self, anchors: Seq<Pattern>, e: int) -> Option<nat>
        decreases e,
    {
        if self.tree.elements[e].parent is Some && self.tree.elements[e].parent->0 < e {
            let p = self.tree.elements[e].parent->0 as int;
            if self.is_anchor(anchors, p) {
                Some(self.element_column(p))
            } else {
                self.anchor_column(anchors, p)
            }
        } else {
            None
        }
    }

    /// The default policy: one level deeper than the resolved indent of the
    /// parent; column zero for the root.
    pub open spec fn default_target(self, anchors: Seq<Pattern>, e: int) -> nat {
        match self.tree.elements[e].parent {
            Some(p) => sat_add(self.resolved_indent(anchors, p as int), INDENT_SIZE as nat),
            None => 0,
        }
    }

    /// The column an indentation rule with action `action` gives element
    /// `e`.
    pub open spec fn rule_target(self, anchors: Seq<Pattern>, action: IndentAction, e: int) -> nat {
        match action {
            IndentAction::Offset(n) => match self.tree.elements[e].parent {
                Some(p) => sat_add(self.resolved_indent(anchors, p as int), n as nat),
                None => n as nat,
            },
            IndentAction::Anchor => match self.anchor_column(anchors, e) {
                Some(column) => sat_add(column, INDENT_SIZE as nat),
                None => self.default_target(anchors, e),
            },
        }
    }

    /// Element `e` begins exactly where its parent begins, so the line is
    /// the parent's to indent.
    pub open spec fn is_exempt(self, e: int) -> bool {
        self.tree.elements[e].parent matches Some(p) && self.tree.elements[p as int].start
            == self.tree.elements[e].start
    }

    /// Element `e` is one the indentation pass has to indent.
    pub open spec fn needs_indent(self, e: int) -> bool {
        self.starts_line(e) && !self.is_exempt(e)
    }

    /// The overlay after element `e` was visited by the indentation pass,
    /// or the failure if more than one rule matches an element that needs
    /// an indent.
    pub open spec fn indent_element(
        self,
        rules: Seq<IndentRule>,
        anchors: Seq<Pattern>,
        e: int,
    ) -> Result<ModelView, FormatError> {
        let matched = matching_spec(indent_patterns(rules), self.tree, e);
        let j = self.tree.elements[e].first_token as int;
        if !self.needs_indent(e) {
            Ok(self)
        } else if matched.len() >= 2 {
            Err(
                FormatError::ConflictingIndentRules {
                    element: e as usize,
                    first: matched[0],
                    second: matched[1],
                },
            )
        } else if matched.len() == 1 {
            let rule = rules[matched[0] as int];
            Ok(self.set_indent(j, self.rule_target(anchors, rule.action, e), rule.name))
        } else {
            Ok(self.set_indent(j, self.default_target(anchors, e), None))
        }
    }

    /// The overlay after the first `n` elements of `walk` were visited, or
    /// the first failure among them.
    pub open spec fn indent_elements(
        self,
        rules: Seq<IndentRule>,
        anchors: Seq<Pattern>,
        walk: Seq<usize>,
        n: int,
    ) -> Result<ModelView, FormatError>
        decreases n,
    {
        if n <= 0 {
            Ok(self)
        } else {
            match self.indent_elements(rules, anchors, walk, n - 1) {
                Ok(m) => m.indent_element(rules, anchors, walk[n - 1] as int),
                Err(e) => Err(e),
            }
        }
    }

    /// The overlay after the indentation pass, or its failure.
    pub open spec fn indentation_pass(
        self,
        rules: Seq<IndentRule>,
        anchors: Seq<Pattern>,
    ) -> Result<ModelView, FormatError> {
        self.indent_elements(rules, anchors, self.tree.walk(), self.tree.walk().len() as int)
    }
}

/// Once the pass has failed, visiting more elements does not change the
/// failure.
pub proof fn lemma_indent_failure_sticks(
    m: ModelView,
    rules: Seq<IndentRule>,
    anchors: Seq<Pattern>,
    walk: Seq<usize>,
    n: int,
    later: int,
)
    requires
        0 <= n <= later,
        m.indent_elements(rules, anchors, walk, n) is Err,
    ensures
        m.indent_elements(rules, anchors, walk, later) == m.indent_elements(
            rules,
            anchors,
            walk,
            n,
        ),
    decreases later - n,
{
    if n < later {
        lemma_indent_failure_sticks(m, rules, anchors, walk, n, later - 1);
    }
}

/// The resolved indent of element `element`.
pub fn resolved_indent(model: &FmtModel, anchor_set: &PatternSet, element: usize) -> (indent:
    usize)
    requires
        model.wf(),
        element < model@.tree.elements.len(),
    ensures
        indent == model@.resolved_indent(anchor_set@, element as int),
{
    let tree = model.tree();
    proof {
        use_type_invariant(tree);
    }
    let mut current = element;
    loop
        invariant
            model.wf(),
            tree@ == model@.tree,
            tree@.wf(),
            current < tree@.elements.len(),
            model@.resolved_indent(anchor_set@, element as int) == model@.resolved_indent(
                anchor_set@,
                current as int,
            ),
        decreases current,
    {
        let e = tree.element(current);
        if model.has_newline(e.first_token) || anchor_set.matches_any(tree, current) {
            return model.column_of(e.first_token);
        }
        match e.parent {
            None => {
                return 0;
            },
            Some(p) => {
                current = p;
            },
        }
    }
}

/// The column of the nearest proper ancestor of `element` that is an
/// anchor.
pub fn anchor_column(model: &FmtModel, anchor_set: &PatternSet, element: usize) -> (column: Option<
    usize,
>)
    requires
        model.wf(),
        element < model@.tree.elements.len(),
    ensures
        match column {
            Some(c) => model@.anchor_column(anchor_set@, element as int) == Some(c as nat),
            None => model@.anchor_column(anchor_set@, element as int) is None,
        },
{
    let tree = model.tree();
    proof {
        use_type_invariant(tree);
    }
    let mut current = element;
    loop
        invariant
            model.wf(),
            tree@ == model@.tree,
            tree@.wf(),
            current < tree@.elements.len(),
            model@.anchor_column(anchor_set@, element as int) == model@.anchor_column(
                anchor_set@,
                current as int,
            ),
        decreases current,
    {
        match tree.element(current).parent {
            None => {
                return None;
            },
            Some(p) => {
                if anchor_set.matches_any(tree, p) {
                    return Some(model.column_of(tree.element(p).first_token));
                }
                current = p;
            },
        }
    }
}

/// The column the default policy gives element `element`.
pub fn default_target(model: &FmtModel, anchor_set: &PatternSet, element: usize) -> (column: usize)
    requires
        model.wf(),
        element < model@.tree.elements.len(),
    ensures
        column == model@.default_target(anchor_set@, element as int),
{
    let tree = model.tree();
    proof {
        use_type_invariant(tree);
    }
    match tree.element(element).parent {
        Some(p) => saturating_sum(resolved_indent(model, anchor_set, p), INDENT_SIZE),
        None => 0,
    }
}

/// Indents element `element` by the default policy.
pub fn default_indent(element: usize, model: &mut FmtModel, anchor_set: &PatternSet)
    requires
        old(model).wf(),
        element < old(model)@.tree.elements.len(),
    ensures
        final(model).wf(),
        final(model)@ == old(model)@.set_indent(
            old(model)@.tree.elements[element as int].first_token as int,
            old(model)@.default_target(anchor_set@, element as int),
            None,
        ),
{
    let column = default_target(model, anchor_set, element);
    let j = model.block_for(element, BlockPosition::Before);
    model.set_indent(j, column, None);
}

impl IndentRule {
    /// Indents element `element`, which the rule is taken to match, as
    /// the rule's action says.
    pub fn apply(&self, element: usize, model: &mut FmtModel, anchor_set: &PatternSet)
        requires
            old(model).wf(),
            element < old(model)@.tree.elements.len(),
        ensures
            final(model).wf(),
            final(model)@ == old(model)@.set_indent(
                old(model)@.tree.elements[element as int].first_token as int,
                old(model)@.rule_target(anchor_set@, self.action, element as int),
                self.name,
            ),
    {
        let tree = model.tree();
        proof {
            use_type_invariant(tree);
        }
        let column = match self.action {
            IndentAction::Offset(n) => match tree.element(element).parent {
                Some(p) => saturating_sum(resolved_indent(model, anchor_set, p), n),
                None => n,
            },
            IndentAction::Anchor => match anchor_column(model, anchor_set, element) {
                Some(c) => saturating_sum(c, INDENT_SIZE),
                None => default_target(model, anchor_set, element),
            },
        };
        let j = model.block_for(element, BlockPosition::Before);
        model.set_indent(j, column, self.name);
    }
}

/// The indentation pass. Fails, before any further element is touched, at
/// the first element that needs an indent and is matched by more than one
/// rule.
pub fn apply_indentation(dsl: &IndentDsl, model: &mut FmtModel) -> (r: Result<(), FormatError>)
    requires
        old(model).wf(),
    ensures
        final(model).wf(),
        final(model)@.tree == old(model)@.tree,
        match old(model)@.indentation_pass(dsl.rules@, dsl.anchors@) {
            Ok(m) => r is Ok && final(model)@ == m,
            Err(e) => r == Err::<(), FormatError>(e),
        },
{
    let tree = model.tree();
    let rule_set = dsl.pattern_set();
    let anchor_set = dsl.anchor_set();
    let walk = tree.walk_non_whitespace();
    let ghost start = model@;
    let n = tree.len();
    let count = dsl.rules.len();
    proof {
        use_type_invariant(tree);
        start.tree.lemma_walk_upto(n as int);
    }
    let mut w: usize = 0;
    while w < walk.len()
        invariant
            w <= walk.len(),
            model.wf(),
            model@.tree == tree@,
            start.tree == tree@,
            start == old(model)@,
            tree@.wf(),
            walk@ == tree@.walk(),
            count == dsl.rules@.len(),
            rule_set@ == indent_patterns(dsl.rules@),
            anchor_set@ == dsl.anchors@,
            forall|k: int| 0 <= k < walk@.len() ==> (#[trigger] walk@[k]) < tree@.elements.len(),
            start.indent_elements(dsl.rules@, dsl.anchors@, walk@, w as int) == Ok::<
                ModelView,
                FormatError,
            >(model@),
        decreases walk.len() - w,
    {
        let element = walk[w];
        let e = tree.element(element);
        let exempt = match e.parent {
            Some(p) => tree.element(p).start == e.start,
            None => false,
        };
        if model.has_newline(e.first_token) && !exempt {
            let matched = rule_set.matching(tree, element);
            proof {
                lemma_matching_upto(rule_set@, tree@, element as int, count as int);
            }
            if matched.len() >= 2 {
                proof {
                    lemma_indent_failure_sticks(
                        start,
                        dsl.rules@,
                        dsl.anchors@,
                        walk@,
                        w + 1,
                        walk@.len() as int,
                    );
                }
                return Err(
                    FormatError::ConflictingIndentRules {
                        element,
                        first: matched[0],
                        second: matched[1],
                    },
                );
            } else if matched.len() == 1 {
                dsl.rules[matched[0]].apply(element, model, &anchor_set);
            } else {
                default_indent(element, model, &anchor_set);
            }
        }
        w += 1;
    }
    Ok(())
}

} // verus!
