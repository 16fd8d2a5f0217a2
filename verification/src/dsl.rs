//! The two rule sets the engine evaluates. Rules are immutable input: a
//! pattern that selects elements, and what to do with the whitespace
//! around a selected element.
use crate::pattern::{Pattern, PatternSet};
use vstd::prelude::*;

verus! {

/// Identifies the rule an edit goes back to. Advisory only.
#[derive(Clone, Copy, Debug, PartialEq, Eq)]
pub struct RuleName(pub u32);

/// How much whitespace a spacing rule asks for.
#[derive(Clone, Copy, Debug, PartialEq, Eq)]
pub enum SpaceValue {
    /// Exactly one space and no line break.
    Single,
    /// One space, unless the whitespace already holds a line break.
    SingleOptionalNewline,
    /// At least this many line breaks.
    Newlines(usize),
    /// No whitespace at all.
    NoSpace,
    /// No whitespace, unless the whitespace already holds a line break.
    NoSpaceOptionalNewline,
}

/// On which side of the matched element a spacing rule acts.
#[derive(Clone, Copy, Debug, PartialEq, Eq)]
pub enum SpaceLoc {
    /// The whitespace in front of the element.
    Before,
    /// The whitespace behind the element.
    After,
    /// Both, the front first.
    Around,
}

/// A spacing rule.
pub struct SpacingRule {
    pub name: Option<RuleName>,
    pub pattern: Pattern,
    pub loc: SpaceLoc,
    pub value: SpaceValue,
}

/// The spacing rules, in declaration order.
pub struct SpacingDsl {
    pub rules: Vec<SpacingRule>,
}

/// How an indentation rule finds the column of a line.
#[derive(Clone, Copy, Debug, PartialEq, Eq)]
pub enum IndentAction {
    /// This many columns deeper than the resolved indent of the parent.
    Offset(usize),
    /// One level deeper than the column of the nearest ancestor that an
    /// anchor pattern matches; the default policy if there is none.
    Anchor,
}

/// An indentation rule.
pub struct IndentRule {
    pub name: Option<RuleName>,
    pub pattern: Pattern,
    pub action: IndentAction,
}

/// The indentation rules in declaration order, and the patterns that mark
/// anchors.
pub struct IndentDsl {
    pub rules: Vec<IndentRule>,
    pub anchors: Vec<Pattern>,
}

/// The patterns of a list of spacing rules.
pub open spec fn spacing_patterns(rules: Seq<SpacingRule>) -> Seq<Pattern> {
    rules.map_values(|r: SpacingRule| r.pattern)
}

/// The patterns of a list of indentation rules.
pub open spec fn indent_patterns(rules: Seq<IndentRule>) -> Seq<Pattern> {
    rules.map_values(|r: IndentRule| r.pattern)
}

impl SpacingDsl {
    /// The patterns of the rules, in declaration order.
    pub fn pattern_set(&self) -> (set: PatternSet<'_>)
        ensures
            set@ == spacing_patterns(self.rules@),
    {
        let mut set = PatternSet::new();
        let mut r: usize = 0;
        while r < self.rules.len()
            invariant
                r <= self.rules.len(),
                set@ == spacing_patterns(self.rules@.take(r as int)),
            decreases self.rules.len() - r,
        {
            set.push(&self.rules[r].pattern);
            r += 1;
            assert(set@ =~= spacing_patterns(self.rules@.take(r as int)));
        }
        assert(self.rules@.take(r as int) =~= self.rules@);
        set
    }
}

impl IndentDsl {
    /// The patterns of the rules, in declaration order.
    pub fn pattern_set(&self) -> (set: PatternSet<'_>)
        ensures
            set@ == indent_patterns(self.rules@),
    {
        let mut set = PatternSet::new();
        let mut r: usize = 0;
        while r < self.rules.len()
            invariant
                r <= self.rules.len(),
                set@ == indent_patterns(self.rules@.take(r as int)),
            decreases self.rules.len() - r,
        {
            set.push(&self.rules[r].pattern);
            r += 1;
            assert(set@ =~= indent_patterns(self.rules@.take(r as int)));
        }
        assert(self.rules@.take(r as int) =~= self.rules@);
        set
    }

    /// The anchor patterns, in declaration order.
    pub fn anchor_set(&self) -> (set: PatternSet<'_>)
        ensures
            set@ == self.anchors@,
    {
        let mut set = PatternSet::new();
        let mut r: usize = 0;
        while r < self.anchors.len()
            invariant
                r <= self.anchors.len(),
                set@ == self.anchors@.take(r as int),
            decreases self.anchors.len() - r,
        {
            set.push(&self.anchors[r]);
            r += 1;
            assert(set@ =~= self.anchors@.take(r as int));
        }
        assert(self.anchors@.take(r as int) =~= self.anchors@);
        set
    }
}

} // verus!
