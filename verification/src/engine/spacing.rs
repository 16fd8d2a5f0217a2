//! First pass: for every non-whitespace element, in depth-first order, each
//! matching spacing rule rewrites the whitespace in front of or behind the
//! element. Later rules see what earlier ones left.
use crate::dsl::{spacing_patterns, RuleName, SpaceLoc, SpaceValue, SpacingDsl, SpacingRule};
use crate::engine::fmt_model::{BlockPosition, FmtModel, ModelView};
use crate::pattern::{lemma_matching_upto, matching_spec};
use crate::text::{
    blank, contains_newline, copy_bytes, count_newlines, has_newline, indent_width, make_blank,
    newline_count, trailing_width,
};
use vstd::prelude::*;

verus! {

/// What a whitespace run reading `text` reads after the directive `value`.
///
/// `Single` and `NoSpace` decide both the line breaks and the spaces. The
/// two optional forms leave a run with a line break alone. `Newlines(n)`
/// decides the line breaks only: a run with fewer than `n` gets `n` and
/// keeps the width of its last line; a run with `n` or more stays.
pub open spec fn spaced(value: SpaceValue, text: Seq<u8>) -> Seq<u8> {
    match value {
        SpaceValue::Single => blank(0, 1),
        SpaceValue::SingleOptionalNewline => if has_newline(text) {
            text
        } else {
            blank(0, 1)
        },
        SpaceValue::Newlines(n) => if count_newlines(text) >= n {
            text
        } else {
            blank(n as nat, indent_width(text))
        },
        SpaceValue::NoSpace => blank(0, 0),
        SpaceValue::NoSpaceOptionalNewline => if has_newline(text) {
            text
        } else {
            blank(0, 0)
        },
    }
}

impl ModelView {
    /// The overlay after the directive `value` was applied to whitespace
    /// run `j`.
    pub open spec fn ensure_space(
        self,
        j: int,
        value: SpaceValue,
        reason: Option<RuleName>,
    ) -> ModelView {
        self.set_text(j, spaced(value, self.blocks[j].text), reason)
    }

    /// The overlay after `rule` was applied to element `e`: to the run in
    /// front, to the run behind, or to the front and then the back.
    pub open spec fn apply_spacing_rule(self, rule: SpacingRule, e: int) -> ModelView {
        let front = if rule.loc != SpaceLoc::After {
            self.ensure_space(self.tree.elements[e].first_token as int, rule.value, rule.name)
        } else {
            self
        };
        if rule.loc != SpaceLoc::Before {
            front.ensure_space(self.tree.elements[e].end_token as int, rule.value, rule.name)
        } else {
            front
        }
    }

    /// The overlay after the first `n` of the rules listed in `matched`
    /// were applied to element `e`, in order.
    pub open spec fn apply_spacing_rules(
        self,
        rules: Seq<SpacingRule>,
        matched: Seq<usize>,
        e: int,
        n: int,
    ) -> ModelView
        decreases n,
    {
        if n <= 0 {
            self
        } else {
            self.apply_spacing_rules(rules, matched, e, n - 1).apply_spacing_rule(
                rules[matched[n - 1] as int],
                e,
            )
        }
    }

    /// The overlay after every rule that matches element `e` was applied
    /// to it, in declaration order.
    pub open spec fn space_element(self, rules: Seq<SpacingRule>, e: int) -> ModelView {
        let matched = matching_spec(spacing_patterns(rules), self.tree, e);
        self.apply_spacing_rules(rules, matched, e, matched.len() as int)
    }

    /// The overlay after the first `n` elements of `walk` were spaced.
    pub open spec fn space_elements(
        self,
        rules: Seq<SpacingRule>,
        walk: Seq<usize>,
        n: int,
    ) -> ModelView
        decreases n,
    {
        if n <= 0 {
            self
        } else {
            self.space_elements(rules, walk, n - 1).space_element(rules, walk[n - 1] as int)
        }
    }

    /// The overlay after the spacing pass.
    pub open spec fn spacing_pass(self, rules: Seq<SpacingRule>) -> ModelView {
        self.space_elements(rules, self.tree.walk(), self.tree.walk().len() as int)
    }
}

/// Applies the directive `value` to whitespace run `j`.
pub fn ensure_space(model: &mut FmtModel, j: usize, value: SpaceValue, reason: Option<RuleName>)
    requires
        old(model).wf(),
        j <= old(model)@.tree.tokens.len(),
    ensures
        final(model).wf(),
        final(model)@ == old(model)@.ensure_space(j as int, value, reason),
{
    let now = model.block_text(j);
    let text = match value {
        SpaceValue::Single => make_blank(0, 1),
        SpaceValue::SingleOptionalNewline => if contains_newline(now) {
            copy_bytes(now)
        } else {
            make_blank(0, 1)
        },
        SpaceValue::Newlines(n) => if newline_count(now) >= n {
            copy_bytes(now)
        } else {
            make_blank(n, trailing_width(now))
        },
        SpaceValue::NoSpace => make_blank(0, 0),
        SpaceValue::NoSpaceOptionalNewline => if contains_newline(now) {
            copy_bytes(now)
        } else {
            make_blank(0, 0)
        },
    };
    model.set_text(j, text, reason);
}

impl SpacingRule {
    /// Applies the rule to element `element`, which it is taken to match.
    pub fn apply(&self, element: usize, model: &mut FmtModel)
        requires
            old(model).wf(),
            element < old(model)@.tree.elements.len(),
        ensures
            final(model).wf(),
            final(model)@ == old(model)@.apply_spacing_rule(*self, element as int),
    {
        match self.loc {
            SpaceLoc::After => {},
            _ => {
                let j = model.block_for(element, BlockPosition::Before);
                ensure_space(model, j, self.value, self.name);
            },
        }
        match self.loc {
            SpaceLoc::Before => {},
            _ => {
                let j = model.block_for(element, BlockPosition::After);
                ensure_space(model, j, self.value, self.name);
            },
        }
    }
}

/// The spacing pass: visits the non-whitespace elements in depth-first
/// order and applies to each the rules that match it.
pub fn apply_spacing(dsl: &SpacingDsl, model: &mut FmtModel)
    requires
        old(model).wf(),
    ensures
        final(model).wf(),
        final(model)@ == old(model)@.spacing_pass(dsl.rules@),
        final(model)@.tree == old(model)@.tree,
{
    let tree = model.tree();
    let set = dsl.pattern_set();
    let walk = tree.walk_non_whitespace();
    let ghost start = model@;
    let n = tree.len();
    proof {
        use_type_invariant(tree);
        start.tree.lemma_walk_upto(n as int);
    }
    let mut w: usize = 0;
    while w < walk.len()
        invariant
            w <= walk.len(),
            model.wf(),
            model@.tree == tree@,
            start.tree == tree@,
            start == old(model)@,
            walk@ == tree@.walk(),
            set@ == spacing_patterns(dsl.rules@),
            forall|k: int| 0 <= k < walk@.len() ==> (#[trigger] walk@[k]) < tree@.elements.len(),
            model@ == start.space_elements(dsl.rules@, walk@, w as int),
        decreases walk.len() - w,
    {
        let element = walk[w];
        let matched = set.matching(tree, element);
        let ghost before = model@;
        let count = dsl.rules.len();
        proof {
            lemma_matching_upto(set@, tree@, element as int, count as int);
        }
        let mut m: usize = 0;
        while m < matched.len()
            invariant
                m <= matched.len(),
                model.wf(),
                model@.tree == tree@,
                before.tree == tree@,
                element < tree@.elements.len(),
                set@.len() == dsl.rules@.len(),
                matched@ == matching_spec(set@, tree@, element as int),
                forall|k: int| 0 <= k < matched@.len() ==> (#[trigger] matched@[k]) < set@.len(),
                model@ == before.apply_spacing_rules(dsl.rules@, matched@, element as int, m as int),
            decreases matched.len() - m,
        {
            dsl.rules[matched[m]].apply(element, model);
            m += 1;
        }
        w += 1;
    }
}

} // verus!
