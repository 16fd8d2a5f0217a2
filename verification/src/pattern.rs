//! Declarative predicates over tree elements, and ordered sets of them.
//!
//! A pattern is plain data: it constrains an element's kind, the kind of
//! its parent, the kinds of its ancestors, its place among its siblings and
//! its text. Matching has no side effects.
use crate::tree::{SyntaxTree, TreeView};
use vstd::prelude::*;

verus! {

/// Where an element stands among the non-whitespace children of its parent.
#[derive(Clone, Copy, Debug, PartialEq, Eq)]
pub enum SiblingPosition {
    /// No constraint.
    Any,
    /// No non-whitespace sibling comes before the element.
    First,
    /// Some non-whitespace sibling comes before the element.
    NotFirst,
    /// No non-whitespace sibling comes after the element.
    Last,
    /// Some non-whitespace sibling comes after the element.
    NotLast,
}

/// A predicate over tree elements. An absent constraint admits everything.
pub struct Pattern {
    /// Kinds the element may have.
    pub kinds: Option<Vec<u16>>,
    /// Kinds the parent may have; with this constraint the root never
    /// matches.
    pub parent_kinds: Option<Vec<u16>>,
    /// Kinds of which at least one proper ancestor must be.
    pub ancestor_kinds: Option<Vec<u16>>,
    /// Place among the siblings.
    pub position: SiblingPosition,
    /// Exact text; only tokens match a pattern with this constraint.
    pub text: Option<Vec<u8>>,
}

/// `kind` passes an optional list of kinds.
pub open spec fn admits(kinds: Option<Vec<u16>>, kind: u16) -> bool {
    match kinds {
        None => true,
        Some(list) => list@.contains(kind),
    }
}

impl TreeView {
    /// Some proper ancestor of element `i` has one of `kinds`.
    pub open spec fn has_ancestor(self, i: int, kinds: Seq<u16>) -> bool
        decreases i,
    {
        if self.elements[i].parent is Some && self.elements[i].parent->0 < i {
            let p = self.elements[i].parent->0 as int;
            kinds.contains(self.elements[p].kind) || self.has_ancestor(p, kinds)
        } else {
            false
        }
    }

    /// No non-whitespace sibling comes before element `i`.
    pub open spec fn is_first(self, i: int) -> bool {
        forall|k: int|
            0 <= k < i && (#[trigger] self.elements[k]).parent == self.elements[i].parent
                ==> self.is_whitespace(k)
    }

    /// No non-whitespace sibling comes after element `i`.
    pub open spec fn is_last(self, i: int) -> bool {
        forall|k: int|
            i < k < self.elements.len() && (#[trigger] self.elements[k]).parent
                == self.elements[i].parent ==> self.is_whitespace(k)
    }

    /// Element `i` stands where `position` asks.
    pub open spec fn stands(self, i: int, position: SiblingPosition) -> bool {
        match position {
            SiblingPosition::Any => true,
            SiblingPosition::First => self.is_first(i),
            SiblingPosition::NotFirst => !self.is_first(i),
            SiblingPosition::Last => self.is_last(i),
            SiblingPosition::NotLast => !self.is_last(i),
        }
    }
}

impl Pattern {
    /// The pattern holds of element `i` of `tree`.
    pub open spec fn matches_spec(self, tree: TreeView, i: int) -> bool {
        &&& admits(self.kinds, tree.elements[i].kind)
        &&& self.parent_kinds matches Some(list) ==> tree.elements[i].parent is Some
            && list@.contains(tree.elements[tree.elements[i].parent->0 as int].kind)
        &&& self.ancestor_kinds matches Some(list) ==> tree.has_ancestor(i, list@)
        &&& tree.stands(i, self.position)
        &&& self.text matches Some(text) ==> tree.elements[i].is_token && tree.element_text(i)
            == text@
    }

    /// A pattern without constraints.
    pub fn any() -> (p: Pattern)
        ensures
            p.kinds is None,
            p.parent_kinds is None,
            p.ancestor_kinds is None,
            p.position == SiblingPosition::Any,
            p.text is None,
    {
        Pattern {
            kinds: None,
            parent_kinds: None,
            ancestor_kinds: None,
            position: SiblingPosition::Any,
            text: None,
        }
    }

    /// Whether the pattern holds of element `i` of `tree`.
    pub fn matches(&self, tree: &SyntaxTree, i: usize) -> (b: bool)
        requires
            i < tree@.elements.len(),
        ensures
            b == self.matches_spec(tree@, i as int),
    {
        proof {
            use_type_invariant(tree);
        }
        let e = tree.element(i);
        if let Some(list) = &self.kinds {
            if !contains_kind(list, e.kind) {
                return false;
            }
        }
        if let Some(list) = &self.parent_kinds {
            match e.parent {
                None => {
                    return false;
                },
                Some(p) => {
                    if !contains_kind(list, tree.element(p).kind) {
                        return false;
                    }
                },
            }
        }
        if let Some(list) = &self.ancestor_kinds {
            if !has_ancestor_of(tree, i, list) {
                return false;
            }
        }
        let placed = match self.position {
            SiblingPosition::Any => true,
            SiblingPosition::First => is_first_sibling(tree, i),
            SiblingPosition::NotFirst => !is_first_sibling(tree, i),
            SiblingPosition::Last => is_last_sibling(tree, i),
            SiblingPosition::NotLast => !is_last_sibling(tree, i),
        };
        if !placed {
            return false;
        }
        if let Some(text) = &self.text {
            if !e.is_token {
                return false;
            }
            if !crate::text::same_bytes(tree.element_text(i), text.as_slice()) {
                return false;
            }
        }
        true
    }
}

/// Whether `kind` occurs in `list`.
pub fn contains_kind(list: &Vec<u16>, kind: u16) -> (found: bool)
    ensures
        found == list@.contains(kind),
{
    let mut k: usize = 0;
    while k < list.len()
        invariant
            k <= list.len(),
            forall|m: int| 0 <= m < k ==> list@[m] != kind,
        decreases list.len() - k,
    {
        if list[k] == kind {
            return true;
        }
        k += 1;
    }
    false
}

/// Whether some proper ancestor of element `i` has one of `kinds`.
pub fn has_ancestor_of(tree: &SyntaxTree, i: usize, kinds: &Vec<u16>) -> (found: bool)
    requires
        i < tree@.elements.len(),
    ensures
        found == tree@.has_ancestor(i as int, kinds@),
{
    proof {
        use_type_invariant(tree);
    }
    let mut current = i;
    loop
        invariant
            current < tree@.elements.len(),
            tree@.wf(),
            tree@.has_ancestor(i as int, kinds@) == tree@.has_ancestor(current as int, kinds@),
        decreases current,
    {
        match tree.element(current).parent {
            None => {
                return false;
            },
            Some(p) => {
                if contains_kind(kinds, tree.element(p).kind) {
                    return true;
                }
                current = p;
            },
        }
    }
}

/// Whether no non-whitespace sibling comes before element `i`.
pub fn is_first_sibling(tree: &SyntaxTree, i: usize) -> (first: bool)
    requires
        i < tree@.elements.len(),
    ensures
        first == tree@.is_first(i as int),
{
    proof {
        use_type_invariant(tree);
    }
    let parent = match tree.element(i).parent {
        None => {
            return true;
        },
        Some(p) => p,
    };
    let mut k: usize = parent + 1;
    while k < i
        invariant
            parent < k <= i < tree@.elements.len(),
            tree@.wf(),
            tree@.elements[i as int].parent == Some(parent),
            forall|m: int|
                0 <= m < k && (#[trigger] tree@.elements[m]).parent == Some(parent)
                    ==> tree@.is_whitespace(m),
        decreases i - k,
    {
        if tree.element(k).parent == Some(parent) && !tree.is_whitespace(k) {
            return false;
        }
        k += 1;
    }
    true
}

/// Whether no non-whitespace sibling comes after element `i`.
pub fn is_last_sibling(tree: &SyntaxTree, i: usize) -> (last: bool)
    requires
        i < tree@.elements.len(),
    ensures
        last == tree@.is_last(i as int),
{
    let parent = tree.element(i).parent;
    let n = tree.len();
    let mut k: usize = i + 1;
    while k < n
        invariant
            i < k <= n == tree@.elements.len(),
            tree@.elements[i as int].parent == parent,
            forall|m: int|
                i < m < k && (#[trigger] tree@.elements[m]).parent == parent
                    ==> tree@.is_whitespace(m),
        decreases n - k,
    {
        if same_parent(tree.element(k).parent, parent) && !tree.is_whitespace(k) {
            return false;
        }
        k += 1;
    }
    true
}

/// Equality of two optional parent indices.
pub fn same_parent(a: Option<usize>, b: Option<usize>) -> (same: bool)
    ensures
        same == (a == b),
{
    match (a, b) {
        (None, None) => true,
        (Some(x), Some(y)) => x == y,
        _ => false,
    }
}

/// The indices below `n` of the patterns that hold of element `i`, in
/// declaration order.
pub open spec fn matching_upto(patterns: Seq<Pattern>, tree: TreeView, i: int, n: int) -> Seq<
    usize,
>
    decreases n,
{
    if n <= 0 {
        Seq::empty()
    } else if patterns[n - 1].matches_spec(tree, i) {
        matching_upto(patterns, tree, i, n - 1).push((n - 1) as usize)
    } else {
        matching_upto(patterns, tree, i, n - 1)
    }
}

/// The indices of all patterns that hold of element `i`, in declaration
/// order.
pub open spec fn matching_spec(patterns: Seq<Pattern>, tree: TreeView, i: int) -> Seq<usize> {
    matching_upto(patterns, tree, i, patterns.len() as int)
}

/// What `matching_upto` lists: exactly the matching indices, each once, in
/// increasing order.
pub proof fn lemma_matching_upto(patterns: Seq<Pattern>, tree: TreeView, i: int, n: int)
    requires
        0 <= n <= patterns.len() <= usize::MAX,
    ensures
        matching_upto(patterns, tree, i, n).len() <= n,
        forall|k: int|
            0 <= k < matching_upto(patterns, tree, i, n).len() ==> 0 <= (#[trigger] matching_upto(
                patterns,
                tree,
                i,
                n,
            )[k]) < n && patterns[matching_upto(patterns, tree, i, n)[k] as int].matches_spec(
                tree,
                i,
            ),
        forall|k: int, l: int|
            0 <= k < l < matching_upto(patterns, tree, i, n).len() ==> matching_upto(
                patterns,
                tree,
                i,
                n,
            )[k] < matching_upto(patterns, tree, i, n)[l],
        forall|r: int|
            0 <= r < n && patterns[r].matches_spec(tree, i) ==> matching_upto(
                patterns,
                tree,
                i,
                n,
            ).contains(r as usize),
    decreases n,
{
    if n > 0 {
        lemma_matching_upto(patterns, tree, i, n - 1);
        let before = matching_upto(patterns, tree, i, n - 1);
        let now = matching_upto(patterns, tree, i, n);
        assert forall|r: int| 0 <= r < n && patterns[r].matches_spec(tree, i) implies now.contains(
            r as usize,
        ) by {
            if r < n - 1 {
                let k = choose|k: int| 0 <= k < before.len() && before[k] == r as usize;
                assert(now[k] == r as usize);
            } else {
                assert(now[now.len() - 1] == r as usize);
            }
        }
    }
}

/// An ordered collection of patterns, borrowed from the rules that own
/// them.
pub struct PatternSet<'a> {
    patterns: Vec<&'a Pattern>,
}

impl<'a> View for PatternSet<'a> {
    type V = Seq<Pattern>;

    closed spec fn view(&self) -> Seq<Pattern> {
        self.patterns@.map_values(|p: &Pattern| *p)
    }
}

impl<'a> PatternSet<'a> {
    /// The empty set.
    pub fn new() -> (set: PatternSet<'a>)
        ensures
            set@ == Seq::<Pattern>::empty(),
    {
        let set = PatternSet { patterns: Vec::new() };
        assert(set@ =~= Seq::<Pattern>::empty());
        set
    }

    /// Adds `pattern` behind the patterns already in the set.
    pub fn push(&mut self, pattern: &'a Pattern)
        ensures
            final(self)@ == old(self)@.push(*pattern),
    {
        self.patterns.push(pattern);
        assert(self@ =~= old(self)@.push(*pattern));
    }

    /// Number of patterns.
    pub fn len(&self) -> (n: usize)
        ensures
            n == self@.len(),
    {
        self.patterns.len()
    }

    /// The indices of the patterns that hold of element `i`, in declaration
    /// order.
    pub fn matching(&self, tree: &SyntaxTree, i: usize) -> (found: Vec<usize>)
        requires
            i < tree@.elements.len(),
        ensures
            found@ == matching_spec(self@, tree@, i as int),
    {
        let mut found: Vec<usize> = Vec::new();
        let mut r: usize = 0;
        while r < self.patterns.len()
            invariant
                r <= self.patterns.len(),
                i < tree@.elements.len(),
                self@.len() == self.patterns.len(),
                found@ == matching_upto(self@, tree@, i as int, r as int),
            decreases self.patterns.len() - r,
        {
            assert(self@[r as int] == *self.patterns@[r as int]);
            if self.patterns[r].matches(tree, i) {
                found.push(r);
            }
            r += 1;
        }
        found
    }

    /// Whether any pattern of the set holds of element `i`.
    pub fn matches_any(&self, tree: &SyntaxTree, i: usize) -> (b: bool)
        requires
            i < tree@.elements.len(),
        ensures
            b == (matching_spec(self@, tree@, i as int).len() > 0),
    {
        let found = self.matching(tree, i);
        found.len() > 0
    }
}

} // verus!
