//! Applies the spacing and indentation rules to a syntax tree and
//! post-processes the result, to get the edit list.
pub mod fixes;
pub mod fmt_model;
pub mod indentation;
pub mod spacing;

use crate::diff::{ordered, EditView, FmtDiff};
use crate::dsl::{IndentDsl, IndentRule, SpacingDsl, SpacingRule};
use crate::engine::fmt_model::{FmtModel, ModelView};
use crate::pattern::Pattern;
use crate::tree::{SyntaxTree, TreeView};
use vstd::prelude::*;

verus! {

/// Why a formatting run produced no edit list.
#[derive(Clone, Copy, Debug, PartialEq, Eq)]
pub enum FormatError {
    /// More than one indentation rule matches an element that begins a
    /// line. The rule set is inconsistent; `first` and `second` are the
    /// first two matching rules in declaration order.
    ConflictingIndentRules { element: usize, first: usize, second: usize },
}

/// The overlay at the end of a formatting run: the spacing pass, then the
/// indentation pass, then the fix-up pass, each on what the pass before
/// left. The failure of the indentation pass is the failure of the run.
pub open spec fn formatted(
    tree: TreeView,
    spacing: Seq<SpacingRule>,
    indent: Seq<IndentRule>,
    anchors: Seq<Pattern>,
) -> Result<ModelView, FormatError> {
    match ModelView::initial(tree).spacing_pass(spacing).indentation_pass(indent, anchors) {
        Ok(m) => Ok(m.fix_pass()),
        Err(e) => Err(e),
    }
}

/// The edit list of a formatting run.
pub open spec fn format_spec(
    tree: TreeView,
    spacing: Seq<SpacingRule>,
    indent: Seq<IndentRule>,
    anchors: Seq<Pattern>,
) -> Result<Seq<EditView>, FormatError> {
    match formatted(tree, spacing, indent, anchors) {
        Ok(m) => Ok(m.diff()),
        Err(e) => Err(e),
    }
}

/// The main entry point for formatting: runs the three passes over the
/// overlay of `root` and reduces it to the edit list. The edits come in
/// text order, no two of them overlap, and each either replaces a
/// whitespace run by spaces and line breaks or lies inside a literal. An
/// inconsistent set of indentation rules fails the run before any edit is
/// handed out.
pub fn format(spacing_dsl: &SpacingDsl, indent_dsl: &IndentDsl, root: &SyntaxTree) -> (r: Result<
    FmtDiff,
    FormatError,
>)
    ensures
        match format_spec(root@, spacing_dsl.rules@, indent_dsl.rules@, indent_dsl.anchors@) {
            Ok(edits) => r is Ok && r->Ok_0@ == edits,
            Err(e) => r == Err::<FmtDiff, FormatError>(e),
        },
        r matches Ok(diff) ==> ordered(diff@, root@.text.len() as int),
        r matches Ok(diff) ==> forall|k: int|
            0 <= k < diff@.len() ==> root@.harmless(#[trigger] diff@[k]),
{
    let mut model = FmtModel::new(root);

    // First, adjust spacing between the elements. This can force some
    // line breaks.
    spacing::apply_spacing(spacing_dsl, &mut model);

    // Next, indent every element that begins a line.
    match indentation::apply_indentation(indent_dsl, &mut model) {
        Ok(()) => {},
        Err(e) => {
            return Err(e);
        },
    }

    // Finally, the touch-ups that need the final columns.
    fixes::apply_fixes(&mut model);

    proof {
        use_type_invariant(root);
        crate::laws::lemma_formatted_faithful(
            root@,
            spacing_dsl.rules@,
            indent_dsl.rules@,
            indent_dsl.anchors@,
        );
        crate::laws::lemma_diff_harmless(model@);
    }
    Ok(model.into_diff())
}

} // verus!
