//! The read-only syntax tree the engine works on: an arena of elements in
//! depth-first order over the source text, together with the list of its
//! non-whitespace tokens.
use crate::kinds::TOKEN_WHITESPACE;
use vstd::prelude::*;

verus! {

/// A node or a token of the tree.
#[derive(Clone, Copy, Debug, PartialEq, Eq)]
pub struct Element {
    /// Kind tag.
    pub kind: u16,
    /// Tokens are leaves and carry text; nodes have children.
    pub is_token: bool,
    /// First byte of the element in the source text.
    pub start: usize,
    /// One past the last byte of the element.
    pub end: usize,
    /// Index of the parent node; `None` for the root.
    pub parent: Option<usize>,
    /// Number of non-whitespace tokens that precede the element. It is also
    /// the index of the whitespace run in front of the element.
    pub first_token: usize,
    /// `first_token` plus the number of non-whitespace tokens inside the
    /// element: the index of the whitespace run behind the element.
    pub end_token: usize,
}

/// Mathematical model of a syntax tree.
pub struct TreeView {
    /// The source text.
    pub text: Seq<u8>,
    /// All elements in depth-first order, root first.
    pub elements: Seq<Element>,
    /// Indices of the non-whitespace tokens, in text order.
    pub tokens: Seq<usize>,
}

impl TreeView {
    /// Element `i` is a whitespace token.
    pub open spec fn is_whitespace(self, i: int) -> bool {
        self.elements[i].is_token && self.elements[i].kind == TOKEN_WHITESPACE
    }

    /// Element `i` is a token other than whitespace.
    pub open spec fn is_significant(self, i: int) -> bool {
        self.elements[i].is_token && self.elements[i].kind != TOKEN_WHITESPACE
    }

    /// The tree invariant: the elements are laid out as `shape` says,
    /// their ranges nest as `nested` says, and the tokens hold all of the
    /// text.
    pub open spec fn wf(self) -> bool {
        self.shape() && self.nested() && self.covered()
    }

    /// Byte `p` of the text belongs to token `i`.
    pub open spec fn holds(self, i: int, p: int) -> bool {
        0 <= i < self.elements.len() && self.elements[i].is_token && self.elements[i].start <= p
            < self.elements[i].end
    }

    /// Byte `p` of the text belongs to some token.
    pub open spec fn in_token(self, p: int) -> bool {
        exists|i: int| #[trigger] self.holds(i, p)
    }

    /// Every byte of the text belongs to some token.
    pub open spec fn covered(self) -> bool {
        forall|p: int| 0 <= p < self.text.len() ==> #[trigger] self.in_token(p)
    }

    /// Element `i` lies within its parent.
    pub open spec fn within_parent(self, i: int) -> bool {
        let p = self.elements[i].parent->0 as int;
        self.elements[p].start <= self.elements[i].start && self.elements[i].end
            <= self.elements[p].end
    }

    /// If elements `i` and `k` are siblings, `i` ends before `k` begins.
    pub open spec fn in_order(self, i: int, k: int) -> bool {
        self.elements[i].parent == self.elements[k].parent ==> self.elements[i].end
            <= self.elements[k].start
    }

    /// Element `i` comes before element `k` in the text as it does in the
    /// depth-first order: no more non-whitespace tokens precede it, it
    /// begins no later, and if it is a token it has ended where `k` begins.
    pub open spec fn counted(self, i: int, k: int) -> bool {
        &&& self.elements[i].first_token <= self.elements[k].first_token
        &&& self.elements[i].start <= self.elements[k].start
        &&& self.elements[i].is_token ==> self.elements[i].end <= self.elements[k].start
    }

    /// The count of tokens in front of element `i` is right: the
    /// non-whitespace tokens listed before that count come before the
    /// element, the others do not.
    pub open spec fn listed(self, i: int, j: int) -> bool {
        if j < self.elements[i].first_token {
            self.tokens[j] < i
        } else {
            self.tokens[j] >= i
        }
    }

    /// The root spans the text, every other element lies within its
    /// parent, siblings follow one another in text order without overlap,
    /// and the count of preceding tokens grows along the depth-first
    /// order.
    pub open spec fn nested(self) -> bool {
        &&& self.elements[0].start == 0
        &&& self.elements[0].end == self.text.len()
        &&& forall|i: int| 0 < i < self.elements.len() ==> #[trigger] self.within_parent(i)
        &&& forall|i: int, k: int| 0 < i < k < self.elements.len() ==> #[trigger] self.in_order(i, k)
        &&& forall|i: int, k: int| 0 <= i < k < self.elements.len() ==> #[trigger] self.counted(i, k)
        &&& forall|i: int, j: int|
            0 <= i < self.elements.len() && 0 <= j < self.tokens.len() ==> #[trigger] self.listed(i, j)
    }

    /// Parents come before their children and are nodes, ranges lie inside
    /// the text, and `tokens` lists exactly the non-whitespace tokens, left
    /// to right without overlap.
    pub open spec fn shape(self) -> bool {
        &&& 1 <= self.elements.len() <= usize::MAX
        &&& self.elements[0].parent is None
        &&& !self.elements[0].is_token
        &&& forall|i: int|
            0 < i < self.elements.len() ==> (#[trigger] self.elements[i]).parent is Some
                && self.elements[i].parent->0 < i
                && !self.elements[self.elements[i].parent->0 as int].is_token
        &&& forall|i: int|
            0 <= i < self.elements.len() ==> (#[trigger] self.elements[i]).start
                <= self.elements[i].end <= self.text.len() && self.elements[i].first_token
                <= self.elements[i].end_token <= self.tokens.len()
        &&& forall|i: int|
            0 <= i < self.elements.len() && self.is_significant(i) ==> (
            #[trigger] self.elements[i]).first_token < self.tokens.len()
                && self.tokens[self.elements[i].first_token as int] == i
                && self.elements[i].end_token == self.elements[i].first_token + 1
        &&& forall|j: int|
            0 <= j < self.tokens.len() ==> (#[trigger] self.tokens[j]) < self.elements.len()
                && self.is_significant(self.tokens[j] as int)
                && self.elements[self.tokens[j] as int].first_token == j
        &&& forall|j: int|
            0 <= j && j + 1 < self.tokens.len() ==> self.token_end(j) <= #[trigger] self.token_start(
                j + 1,
            )
    }

    /// If element `e` begins where its parent begins, as many tokens
    /// precede the one as the other.
    pub open spec fn aligned(self, e: int) -> bool {
        let p = self.elements[e].parent->0 as int;
        self.elements[p].start == self.elements[e].start ==> self.elements[p].first_token
            == self.elements[e].first_token
    }

    /// No element is parted from the start of its parent by tokens that
    /// take up no text. `lemma_plain` shows that a tree without such
    /// tokens is plain.
    pub open spec fn plain(self) -> bool {
        forall|e: int| 0 < e < self.elements.len() ==> #[trigger] self.aligned(e)
    }

    /// Where non-whitespace token `j` begins.
    pub open spec fn token_start(self, j: int) -> int {
        self.elements[self.tokens[j] as int].start as int
    }

    /// Where non-whitespace token `j` ends.
    pub open spec fn token_end(self, j: int) -> int {
        self.elements[self.tokens[j] as int].end as int
    }

    /// Text of non-whitespace token `j`.
    pub open spec fn token_text(self, j: int) -> Seq<u8> {
        self.text.subrange(self.token_start(j), self.token_end(j))
    }

    /// Where whitespace run `j` begins: the end of the token before it, or
    /// the start of the text.
    pub open spec fn space_start(self, j: int) -> int {
        if j <= 0 {
            0
        } else {
            self.token_end(j - 1)
        }
    }

    /// Where whitespace run `j` ends: the start of the token behind it, or
    /// the end of the text.
    pub open spec fn space_end(self, j: int) -> int {
        if j >= self.tokens.len() {
            self.text.len() as int
        } else {
            self.token_start(j)
        }
    }

    /// Source text of whitespace run `j`.
    pub open spec fn space_text(self, j: int) -> Seq<u8> {
        self.text.subrange(self.space_start(j), self.space_end(j))
    }

    /// Source text of element `i`.
    pub open spec fn element_text(self, i: int) -> Seq<u8> {
        self.text.subrange(self.elements[i].start as int, self.elements[i].end as int)
    }

    /// A tree whose non-whitespace tokens all take up text is plain.
    pub proof fn lemma_plain(self)
        requires
            self.wf(),
            forall|j: int| 0 <= j < self.tokens.len() ==> #[trigger] self.token_start(j) < self.token_end(j),
        ensures
            self.plain(),
    {
        assert forall|e: int| 0 < e < self.elements.len() implies #[trigger] self.aligned(e) by {
            let p = self.elements[e].parent->0 as int;
            assert(self.elements[e].parent is Some);
            assert(self.counted(p, e));
            if self.elements[p].start == self.elements[e].start && self.elements[p].first_token
                < self.elements[e].first_token {
                let j = self.elements[p].first_token as int;
                assert(self.elements[e].first_token <= self.elements[e].end_token
                    <= self.tokens.len());
                let t = self.tokens[j] as int;
                assert(self.listed(p, j));
                assert(self.listed(e, j));
                assert(self.is_significant(t));
                assert(self.counted(p, t));
                assert(self.counted(t, e));
                assert(self.token_start(j) < self.token_end(j));
            }
        }
    }

    /// The non-whitespace elements among the first `n`, in depth-first
    /// order.
    pub open spec fn walk_upto(self, n: int) -> Seq<usize>
        decreases n,
    {
        if n <= 0 {
            Seq::empty()
        } else if self.is_whitespace(n - 1) {
            self.walk_upto(n - 1)
        } else {
            self.walk_upto(n - 1).push((n - 1) as usize)
        }
    }

    /// All non-whitespace elements in depth-first order.
    pub open spec fn walk(self) -> Seq<usize> {
        self.walk_upto(self.elements.len() as int)
    }

    /// Whitespace runs never end before they begin, and follow one another.
    pub proof fn lemma_space_ranges(self, j: int)
        requires
            self.wf(),
            0 <= j <= self.tokens.len(),
        ensures
            0 <= self.space_start(j) <= self.space_end(j) <= self.text.len(),
            j < self.tokens.len() ==> self.space_end(j) == self.token_start(j)
                && self.token_start(j) <= self.token_end(j) == self.space_start(j + 1),
    {
        if j > 0 {
            assert(self.tokens[j - 1] < self.elements.len());
            assert(self.elements[self.tokens[j - 1] as int].end <= self.text.len());
            if j < self.tokens.len() {
                assert(self.token_end(j - 1) <= self.token_start((j - 1) + 1));
            }
        }
        if j < self.tokens.len() {
            assert(self.tokens[j] < self.elements.len());
            assert(self.elements[self.tokens[j] as int].start
                <= self.elements[self.tokens[j] as int].end);
        }
    }

    /// Every entry of a walk is the index of a non-whitespace element, and
    /// the entries increase.
    pub proof fn lemma_walk_upto(self, n: int)
        requires
            0 <= n <= self.elements.len() <= usize::MAX,
        ensures
            self.walk_upto(n).len() <= n,
            forall|k: int|
                0 <= k < self.walk_upto(n).len() ==> 0 <= (#[trigger] self.walk_upto(n)[k]) < n
                    && !self.is_whitespace(self.walk_upto(n)[k] as int),
            forall|k: int, l: int|
                0 <= k < l < self.walk_upto(n).len() ==> self.walk_upto(n)[k] < self.walk_upto(
                    n,
                )[l],
        decreases n,
    {
        if n > 0 {
            self.lemma_walk_upto(n - 1);
        }
    }
}

/// Why a sequence of construction steps is not a tree.
#[derive(Clone, Copy, Debug, PartialEq, Eq)]
pub enum TreeError {
    /// No node was ever opened.
    Empty,
    /// A node was opened after the root had been closed.
    SecondRoot,
    /// A token was added while no node was open.
    TokenOutsideNode,
    /// A node was closed while none was open.
    UnbalancedClose,
    /// Not every node was closed.
    Unclosed,
}

/// A syntax tree. Values are made by [`TreeBuilder`] only and satisfy
/// [`TreeView::wf`].
pub struct SyntaxTree {
    text: Vec<u8>,
    elements: Vec<Element>,
    tokens: Vec<usize>,
}

impl View for SyntaxTree {
    type V = TreeView;

    closed spec fn view(&self) -> TreeView {
        TreeView { text: self.text@, elements: self.elements@, tokens: self.tokens@ }
    }
}

impl SyntaxTree {
    /// Every tree satisfies the tree invariant.
    #[verifier::type_invariant]
    pub open spec fn well_formed(self) -> bool {
        self@.wf()
    }

    /// Number of elements.
    pub fn len(&self) -> (n: usize)
        ensures
            n == self@.elements.len(),
            n >= 1,
    {
        proof {
            use_type_invariant(self);
        }
        self.elements.len()
    }

    /// Element `i`.
    pub fn element(&self, i: usize) -> (e: Element)
        requires
            i < self@.elements.len(),
        ensures
            e == self@.elements[i as int],
    {
        self.elements[i]
    }

    /// Whether element `i` is a whitespace token.
    pub fn is_whitespace(&self, i: usize) -> (b: bool)
        requires
            i < self@.elements.len(),
        ensures
            b == self@.is_whitespace(i as int),
    {
        self.elements[i].is_token && self.elements[i].kind == TOKEN_WHITESPACE
    }

    /// The source text.
    pub fn text(&self) -> (text: &[u8])
        ensures
            text@ == self@.text,
    {
        self.text.as_slice()
    }

    /// Source text of element `i`.
    pub fn element_text(&self, i: usize) -> (text: &[u8])
        requires
            i < self@.elements.len(),
        ensures
            text@ == self@.element_text(i as int),
    {
        proof {
            use_type_invariant(self);
        }
        let e = self.elements[i];
        vstd::slice::slice_subrange(self.text.as_slice(), e.start, e.end)
    }

    /// Number of non-whitespace tokens.
    pub fn token_count(&self) -> (k: usize)
        ensures
            k == self@.tokens.len(),
    {
        self.tokens.len()
    }

    /// Element index of non-whitespace token `j`.
    pub fn token(&self, j: usize) -> (i: usize)
        requires
            j < self@.tokens.len(),
        ensures
            i == self@.tokens[j as int],
            i < self@.elements.len(),
    {
        proof {
            use_type_invariant(self);
        }
        self.tokens[j]
    }

    /// Text of non-whitespace token `j`.
    pub fn token_text(&self, j: usize) -> (text: &[u8])
        requires
            j < self@.tokens.len(),
        ensures
            text@ == self@.token_text(j as int),
    {
        proof {
            use_type_invariant(self);
        }
        let e = self.elements[self.tokens[j]];
        vstd::slice::slice_subrange(self.text.as_slice(), e.start, e.end)
    }

    /// Byte range of whitespace run `j`.
    pub fn space_range(&self, j: usize) -> (range: (usize, usize))
        requires
            j <= self@.tokens.len(),
        ensures
            range.0 == self@.space_start(j as int),
            range.1 == self@.space_end(j as int),
            range.0 <= range.1 <= self@.text.len(),
    {
        proof {
            use_type_invariant(self);
            self@.lemma_space_ranges(j as int);
        }
        let start = if j == 0 {
            0
        } else {
            self.elements[self.tokens[j - 1]].end
        };
        let end = if j >= self.tokens.len() {
            self.text.len()
        } else {
            self.elements[self.tokens[j]].start
        };
        (start, end)
    }

    /// Source text of whitespace run `j`.
    pub fn space_text(&self, j: usize) -> (text: &[u8])
        requires
            j <= self@.tokens.len(),
        ensures
            text@ == self@.space_text(j as int),
    {
        let (start, end) = self.space_range(j);
        vstd::slice::slice_subrange(self.text.as_slice(), start, end)
    }

    /// Whether the tree is plain: no element is parted from the start of
    /// its parent by tokens that take up no text.
    pub fn is_plain(&self) -> (b: bool)
        ensures
            b == self@.plain(),
    {
        proof {
            use_type_invariant(self);
        }
        let mut e: usize = 1;
        while e < self.elements.len()
            invariant
                1 <= e <= self.elements.len(),
                self@.wf(),
                forall|i: int| 0 < i < e ==> #[trigger] self@.aligned(i),
            decreases self.elements.len() - e,
        {
            let element = self.elements[e];
            match element.parent {
                Some(p) => {
                    let parent = self.elements[p];
                    if parent.start == element.start && parent.first_token != element.first_token {
                        assert(!self@.aligned(e as int));
                        return false;
                    }
                },
                None => {},
            }
            e += 1;
        }
        true
    }

    /// The non-whitespace elements in depth-first order.
    pub fn walk_non_whitespace(&self) -> (walk: Vec<usize>)
        ensures
            walk@ == self@.walk(),
    {
        let mut walk: Vec<usize> = Vec::new();
        let mut i: usize = 0;
        while i < self.elements.len()
            invariant
                i <= self.elements.len(),
                walk@ == self@.walk_upto(i as int),
            decreases self.elements.len() - i,
        {
            if !(self.elements[i].is_token && self.elements[i].kind == TOKEN_WHITESPACE) {
                walk.push(i);
            }
            i += 1;
        }
        walk
    }
}

/// Mathematical model of a tree under construction.
pub struct BuilderView {
    /// What has been built so far.
    pub tree: TreeView,
    /// The nodes that are still open, outermost first.
    pub stack: Seq<usize>,
}

impl BuilderView {
    /// Nothing built yet.
    pub open spec fn empty() -> BuilderView {
        BuilderView {
            tree: TreeView { text: Seq::empty(), elements: Seq::empty(), tokens: Seq::empty() },
            stack: Seq::empty(),
        }
    }

    /// A node can be opened: as the root, or inside an open node.
    pub open spec fn can_start(self) -> bool {
        self.tree.elements.len() == 0 || self.stack.len() > 0
    }

    /// The state after opening a node of kind `kind`.
    pub open spec fn start_node(self, kind: u16) -> BuilderView {
        let e = Element {
            kind,
            is_token: false,
            start: self.tree.text.len() as usize,
            end: self.tree.text.len() as usize,
            parent: if self.stack.len() > 0 {
                Some(self.stack.last())
            } else {
                None
            },
            first_token: self.tree.tokens.len() as usize,
            end_token: self.tree.tokens.len() as usize,
        };
        BuilderView {
            tree: TreeView { elements: self.tree.elements.push(e), ..self.tree },
            stack: self.stack.push(self.tree.elements.len() as usize),
        }
    }

    /// The state after adding a token of kind `kind` with text `text` to the
    /// innermost open node.
    pub open spec fn token(self, kind: u16, text: Seq<u8>) -> BuilderView {
        let significant = kind != TOKEN_WHITESPACE;
        let e = Element {
            kind,
            is_token: true,
            start: self.tree.text.len() as usize,
            end: (self.tree.text.len() + text.len()) as usize,
            parent: Some(self.stack.last()),
            first_token: self.tree.tokens.len() as usize,
            end_token: if significant {
                (self.tree.tokens.len() + 1) as usize
            } else {
                self.tree.tokens.len() as usize
            },
        };
        BuilderView {
            tree: TreeView {
                text: self.tree.text + text,
                elements: self.tree.elements.push(e),
                tokens: if significant {
                    self.tree.tokens.push(self.tree.elements.len() as usize)
                } else {
                    self.tree.tokens
                },
            },
            stack: self.stack,
        }
    }

    /// The state after closing the innermost open node: the node now ends
    /// where the text ends.
    pub open spec fn finish_node(self) -> BuilderView {
        let i = self.stack.last() as int;
        let e = Element {
            end: self.tree.text.len() as usize,
            end_token: self.tree.tokens.len() as usize,
            ..self.tree.elements[i]
        };
        BuilderView {
            tree: TreeView { elements: self.tree.elements.update(i, e), ..self.tree },
            stack: self.stack.drop_last(),
        }
    }

    /// The builder invariant.
    pub open spec fn wf(self) -> bool {
        &&& self.tree.elements.len() > 0 ==> self.tree.shape()
        &&& self.tree.elements.len() == 0 ==> self.stack.len() == 0 && self.tree.tokens.len() == 0
            && self.tree.text.len() == 0
        &&& forall|k: int|
            0 <= k < self.stack.len() ==> (#[trigger] self.stack[k]) < self.tree.elements.len()
                && !self.tree.elements[self.stack[k] as int].is_token
        &&& self.chained()
        &&& self.nested_so_far()
        &&& self.tree.covered()
    }

    /// Open node `k` is a child of the open node before it.
    pub open spec fn linked(self, k: int) -> bool {
        self.tree.elements[self.stack[k] as int].parent == Some(self.stack[k - 1])
            && self.stack[k - 1] < self.stack[k]
    }

    /// If element `i` was added after open node `k`, its parent is that
    /// node or was added after it.
    pub open spec fn below(self, k: int, i: int) -> bool {
        self.stack[k] < i ==> self.tree.elements[i].parent->0 >= self.stack[k]
    }

    /// The open nodes form a chain from the root down, and whatever was
    /// added after a node was opened lies below it.
    pub open spec fn chained(self) -> bool {
        &&& self.stack.len() > 0 ==> self.stack[0] == 0
        &&& forall|k: int| 0 < k < self.stack.len() ==> #[trigger] self.linked(k)
        &&& forall|k: int, i: int|
            0 <= k < self.stack.len() && 0 <= i < self.tree.elements.len() ==> #[trigger] self.below(
                k,
                i,
            )
    }

    /// Node `p` is open.
    pub open spec fn is_open(self, p: usize) -> bool {
        exists|k: int| 0 <= k < self.stack.len() && #[trigger] self.stack[k] == p
    }

    /// Element `i` begins within its parent, and ends within it if the
    /// parent is closed.
    pub open spec fn begun_within(self, i: int) -> bool {
        let p = self.tree.elements[i].parent->0;
        self.tree.elements[p as int].start <= self.tree.elements[i].start && (!self.is_open(p)
            ==> self.tree.elements[i].end <= self.tree.elements[p as int].end)
    }

    /// The part of the nesting that holds while nodes are open: elements
    /// begin within their parent and behind their earlier siblings, and
    /// end within their parent once the parent is closed.
    pub open spec fn nested_so_far(self) -> bool {
        &&& self.tree.elements.len() > 0 ==> self.tree.elements[0].start == 0
        &&& self.tree.elements.len() > 0 && self.stack.len() == 0 ==> self.tree.elements[0].end
            == self.tree.text.len()
        &&& forall|i: int| 0 < i < self.tree.elements.len() ==> #[trigger] self.begun_within(i)
        &&& forall|i: int, k: int|
            0 < i < k < self.tree.elements.len() ==> #[trigger] self.tree.in_order(i, k)
        &&& forall|i: int, k: int|
            0 <= i < k < self.tree.elements.len() ==> #[trigger] self.tree.counted(i, k)
        &&& forall|i: int, j: int|
            0 <= i < self.tree.elements.len() && 0 <= j < self.tree.tokens.len()
                ==> #[trigger] self.tree.listed(i, j)
    }
}

/// One step of a depth-first description of a tree.
pub enum WalkStep {
    /// A node of the given kind begins.
    Open { kind: u16 },
    /// A token of the given kind with the given text.
    Leaf { kind: u16, text: Vec<u8> },
    /// The innermost open node ends.
    Close,
    /// A token ends. Carries nothing: tokens are complete when they appear.
    LeafEnd,
}

/// Mathematical model of a [`WalkStep`].
pub enum StepView {
    Open { kind: u16 },
    Leaf { kind: u16, text: Seq<u8> },
    Close,
    LeafEnd,
}

impl View for WalkStep {
    type V = StepView;

    open spec fn view(&self) -> StepView {
        match *self {
            WalkStep::Open { kind } => StepView::Open { kind },
            WalkStep::Leaf { kind, text } => StepView::Leaf { kind, text: text@ },
            WalkStep::Close => StepView::Close,
            WalkStep::LeafEnd => StepView::LeafEnd,
        }
    }
}

/// The models of a list of steps.
pub open spec fn steps_view(steps: Seq<WalkStep>) -> Seq<StepView> {
    steps.map_values(|s: WalkStep| s@)
}

/// What one step does to a tree under construction.
pub open spec fn feed(b: BuilderView, step: StepView) -> Result<BuilderView, TreeError> {
    match step {
        StepView::Open { kind } => if b.can_start() {
            Ok(b.start_node(kind))
        } else {
            Err(TreeError::SecondRoot)
        },
        StepView::Leaf { kind, text } => if b.stack.len() > 0 {
            Ok(b.token(kind, text))
        } else {
            Err(TreeError::TokenOutsideNode)
        },
        StepView::Close => if b.stack.len() > 0 {
            Ok(b.finish_node())
        } else {
            Err(TreeError::UnbalancedClose)
        },
        StepView::LeafEnd => Ok(b),
    }
}

/// The state after the first `n` steps, or the first failure among them.
pub open spec fn feed_all(steps: Seq<StepView>, n: int) -> Result<BuilderView, TreeError>
    decreases n,
{
    if n <= 0 {
        Ok(BuilderView::empty())
    } else {
        match feed_all(steps, n - 1) {
            Ok(b) => feed(b, steps[n - 1]),
            Err(e) => Err(e),
        }
    }
}

/// The tree that a sequence of steps describes.
pub open spec fn build(steps: Seq<StepView>) -> Result<TreeView, TreeError> {
    match feed_all(steps, steps.len() as int) {
        Err(e) => Err(e),
        Ok(b) => if b.tree.elements.len() == 0 {
            Err(TreeError::Empty)
        } else if b.stack.len() > 0 {
            Err(TreeError::Unclosed)
        } else {
            Ok(b.tree)
        },
    }
}

/// Builds a [`SyntaxTree`] node by node. Offsets are computed from the token
/// texts, so every finished tree is well formed.
pub struct TreeBuilder {
    text: Vec<u8>,
    elements: Vec<Element>,
    tokens: Vec<usize>,
    stack: Vec<usize>,
}

impl View for TreeBuilder {
    type V = BuilderView;

    closed spec fn view(&self) -> BuilderView {
        BuilderView {
            tree: TreeView { text: self.text@, elements: self.elements@, tokens: self.tokens@ },
            stack: self.stack@,
        }
    }
}

impl TreeBuilder {
    /// A builder that holds nothing.
    pub fn new() -> (b: TreeBuilder)
        ensures
            b@ == BuilderView::empty(),
            b@.wf(),
    {
        TreeBuilder { text: Vec::new(), elements: Vec::new(), tokens: Vec::new(), stack: Vec::new() }
    }

    /// Opens a node of kind `kind`: the root if nothing has been built, a
    /// child of the innermost open node otherwise. Refused once the root has
    /// been closed.
    pub fn start_node(&mut self, kind: u16) -> (r: Result<(), TreeError>)
        requires
            old(self)@.wf(),
        ensures
            final(self)@.wf(),
            old(self)@.can_start() ==> r is Ok && final(self)@ == old(self)@.start_node(kind),
            !old(self)@.can_start() ==> r == Err::<(), TreeError>(TreeError::SecondRoot) && final(self)@ == old(self)@,
    {
        if self.elements.len() > 0 && self.stack.len() == 0 {
            return Err(TreeError::SecondRoot);
        }
        let parent = if self.stack.len() > 0 {
            Some(self.stack[self.stack.len() - 1])
        } else {
            None
        };
        let e = Element {
            kind,
            is_token: false,
            start: self.text.len(),
            end: self.text.len(),
            parent,
            first_token: self.tokens.len(),
            end_token: self.tokens.len(),
        };
        let index = self.elements.len();
        self.elements.push(e);
        self.stack.push(index);
        let count = self.elements.len();
        proof {
            let old_view = old(self)@;
            let new_view = self@;
            assert(new_view.tree.elements =~= old_view.start_node(kind).tree.elements);
            assert(new_view.stack =~= old_view.start_node(kind).stack);
            assert forall|j: int| 0 <= j < new_view.tree.tokens.len() implies new_view.tree.token_start(
                j,
            ) == old_view.tree.token_start(j) && new_view.tree.token_end(j)
                == old_view.tree.token_end(j) by {
                assert(old_view.tree.tokens[j] < old_view.tree.elements.len());
            }
            assert forall|j: int| 0 <= j && j + 1 < new_view.tree.tokens.len() implies new_view.tree.token_end(
            j) <= #[trigger] new_view.tree.token_start(j + 1) by {
                assert(old_view.tree.token_end(j) <= old_view.tree.token_start(j + 1));
            }
            assert(new_view.tree.shape());
            lemma_added_keeps_nesting(old_view, new_view, true);
        }
        Ok(())
    }

    /// Adds a token of kind `kind` with text `text` to the innermost open
    /// node. Refused while no node is open.
    pub fn token(&mut self, kind: u16, text: &[u8]) -> (r: Result<(), TreeError>)
        requires
            old(self)@.wf(),
        ensures
            final(self)@.wf(),
            old(self)@.stack.len() > 0 ==> r is Ok && final(self)@ == old(self)@.token(kind, text@),
            old(self)@.stack.len() == 0 ==> r == Err::<(), TreeError>(TreeError::TokenOutsideNode)
                && final(self)@ == old(self)@,
    {
        if self.stack.len() == 0 {
            return Err(TreeError::TokenOutsideNode);
        }
        let significant = kind != TOKEN_WHITESPACE;
        let start = self.text.len();
        let first_token = self.tokens.len();
        let index = self.elements.len();
        self.text.extend_from_slice(text);
        if significant {
            self.tokens.push(index);
        }
        let e = Element {
            kind,
            is_token: true,
            start,
            end: self.text.len(),
            parent: Some(self.stack[self.stack.len() - 1]),
            first_token,
            end_token: self.tokens.len(),
        };
        self.elements.push(e);
        let count = self.elements.len();
        proof {
            let old_view = old(self)@;
            let new_view = self@;
            assert(new_view.tree.elements =~= old_view.token(kind, text@).tree.elements);
            assert(new_view.tree.tokens =~= old_view.token(kind, text@).tree.tokens);
            assert(new_view.tree.text =~= old_view.token(kind, text@).tree.text);
            assert forall|j: int| 0 <= j < old_view.tree.tokens.len() implies new_view.tree.token_start(
                j,
            ) == old_view.tree.token_start(j) && new_view.tree.token_end(j)
                == old_view.tree.token_end(j) && new_view.tree.token_end(j) <= start by {
                assert(old_view.tree.tokens[j] < old_view.tree.elements.len());
                assert(old_view.tree.elements[old_view.tree.tokens[j] as int].end
                    <= old_view.tree.text.len());
            }
            assert forall|j: int| 0 <= j && j + 1 < new_view.tree.tokens.len() implies new_view.tree.token_end(
            j) <= #[trigger] new_view.tree.token_start(j + 1) by {
                if j + 1 < old_view.tree.tokens.len() {
                    assert(old_view.tree.token_end(j) <= old_view.tree.token_start(j + 1));
                }
            }
            assert(new_view.tree.shape());
            lemma_added_keeps_nesting(old_view, new_view, false);
        }
        Ok(())
    }

    /// Closes the innermost open node. Refused while no node is open.
    pub fn finish_node(&mut self) -> (r: Result<(), TreeError>)
        requires
            old(self)@.wf(),
        ensures
            final(self)@.wf(),
            old(self)@.stack.len() > 0 ==> r is Ok && final(self)@ == old(self)@.finish_node(),
            old(self)@.stack.len() == 0 ==> r == Err::<(), TreeError>(TreeError::UnbalancedClose)
                && final(self)@ == old(self)@,
    {
        if self.stack.len() == 0 {
            return Err(TreeError::UnbalancedClose);
        }
        let index = self.stack[self.stack.len() - 1];
        self.stack.pop();
        let before = self.elements[index];
        let e = Element { end: self.text.len(), end_token: self.tokens.len(), ..before };
        self.elements.set(index, e);
        proof {
            let old_view = old(self)@;
            let new_view = self@;
            assert(new_view.stack =~= old_view.finish_node().stack);
            assert(new_view.tree.elements =~= old_view.finish_node().tree.elements);
            assert forall|j: int| 0 <= j < new_view.tree.tokens.len() implies new_view.tree.token_start(
                j,
            ) == old_view.tree.token_start(j) && new_view.tree.token_end(j)
                == old_view.tree.token_end(j) by {
                assert(old_view.tree.is_significant(old_view.tree.tokens[j] as int));
            }
            assert forall|j: int| 0 <= j && j + 1 < new_view.tree.tokens.len() implies new_view.tree.token_end(
            j) <= #[trigger] new_view.tree.token_start(j + 1) by {
                assert(old_view.tree.token_end(j) <= old_view.tree.token_start(j + 1));
            }
            assert forall|i: int| 0 < i < new_view.tree.elements.len() implies (
            #[trigger] new_view.tree.elements[i]).parent is Some
                && new_view.tree.elements[i].parent->0 < i
                && !new_view.tree.elements[new_view.tree.elements[i].parent->0 as int].is_token by {
                assert(old_view.tree.elements[i].parent is Some);
            }
            assert(new_view.tree.shape());
            lemma_closed_keeps_nesting(old_view, new_view);
        }
        Ok(())
    }

    /// Hands out the finished tree: every node must have been closed, and
    /// there must be a root.
    pub fn finish(self) -> (r: Result<SyntaxTree, TreeError>)
        requires
            self@.wf(),
        ensures
            self@.tree.elements.len() == 0 ==> r == Err::<SyntaxTree, TreeError>(TreeError::Empty),
            self@.tree.elements.len() > 0 && self@.stack.len() > 0 ==> r == Err::<
                SyntaxTree,
                TreeError,
            >(TreeError::Unclosed),
            self@.tree.elements.len() > 0 && self@.stack.len() == 0 ==> r is Ok && r->Ok_0@
                == self@.tree,
    {
        if self.elements.len() == 0 {
            Err(TreeError::Empty)
        } else if self.stack.len() > 0 {
            Err(TreeError::Unclosed)
        } else {
            proof {
                let b = self@;
                assert forall|i: int| 0 < i < b.tree.elements.len() implies #[trigger] b.tree.within_parent(
                    i,
                ) by {
                    assert(b.begun_within(i));
                }
                assert forall|i: int, k: int|
                    0 < i < k < b.tree.elements.len() implies #[trigger] b.tree.in_order(i, k) by {}
                assert forall|i: int, k: int|
                    0 <= i < k < b.tree.elements.len() implies #[trigger] b.tree.counted(i, k) by {}
                assert forall|i: int, j: int|
                    0 <= i < b.tree.elements.len() && 0 <= j < b.tree.tokens.len() implies #[trigger] b.tree.listed(
                    i,
                    j,
                ) by {}
            }
            Ok(SyntaxTree { text: self.text, elements: self.elements, tokens: self.tokens })
        }
    }
}

impl SyntaxTree {
    /// Builds the tree that `steps` describe, or says why they describe none.
    pub fn from_steps(steps: &Vec<WalkStep>) -> (r: Result<SyntaxTree, TreeError>)
        ensures
            match build(steps_view(steps@)) {
                Ok(tree) => r is Ok && r->Ok_0@ == tree,
                Err(e) => r == Err::<SyntaxTree, TreeError>(e),
            },
    {
        let mut builder = TreeBuilder::new();
        let mut i: usize = 0;
        while i < steps.len()
            invariant
                i <= steps.len(),
                builder@.wf(),
                feed_all(steps_view(steps@), i as int) == Ok::<BuilderView, TreeError>(builder@),
            decreases steps.len() - i,
        {
            assert(steps_view(steps@)[i as int] == steps@[i as int]@);
            let fed = match &steps[i] {
                WalkStep::Open { kind } => builder.start_node(*kind),
                WalkStep::Leaf { kind, text } => builder.token(*kind, text.as_slice()),
                WalkStep::Close => builder.finish_node(),
                WalkStep::LeafEnd => Ok(()),
            };
            if let Err(e) = fed {
                proof {
                    lemma_feed_all_sticky(steps_view(steps@), i as int + 1, steps.len() as int);
                }
                return Err(e);
            }
            i += 1;
        }
        builder.finish()
    }
}

/// Adding an element at the end of the text, below the innermost open
/// node, keeps the chain and the nesting. A node that is added is open.
proof fn lemma_added_keeps_nesting(before: BuilderView, after: BuilderView, opened: bool)
    requires
        before.wf(),
        before.can_start(),
        opened || before.stack.len() > 0,
        after.tree.shape(),
        after.tree.elements.len() == before.tree.elements.len() + 1,
        forall|i: int|
            0 <= i < before.tree.elements.len() ==> #[trigger] after.tree.elements[i]
                == before.tree.elements[i],
        after.tree.text.len() >= before.tree.text.len(),
        after.tree.elements.last().start == before.tree.text.len(),
        after.tree.elements.last().end == after.tree.text.len(),
        after.tree.elements.last().is_token || after.tree.text.len() == before.tree.text.len(),
        after.tree.elements.last().first_token == before.tree.tokens.len(),
        after.tree.tokens == before.tree.tokens || after.tree.tokens == before.tree.tokens.push(
            before.tree.elements.len() as usize,
        ),
        before.stack.len() > 0 ==> after.tree.elements.last().parent == Some(before.stack.last()),
        after.stack == if opened {
            before.stack.push(before.tree.elements.len() as usize)
        } else {
            before.stack
        },
    ensures
        after.chained(),
        after.nested_so_far(),
        after.tree.covered(),
{
    let n = before.tree.elements.len() as int;
    let depth = before.stack.len() as int;
    assert forall|p: int| 0 <= p < after.tree.text.len() implies #[trigger] after.tree.in_token(
        p,
    ) by {
        if p < before.tree.text.len() {
            assert(before.tree.in_token(p));
            let i = choose|i: int| #[trigger] before.tree.holds(i, p);
            assert(after.tree.holds(i, p));
        } else {
            assert(after.tree.holds(n, p));
        }
    }
    assert forall|k: int| 0 <= k < depth implies #[trigger] after.stack[k] == before.stack[k] by {}
    assert forall|k: int| 0 < k < after.stack.len() implies #[trigger] after.linked(k) by {
        if k < depth {
            assert(before.linked(k));
            assert(before.stack[k] < n);
        } else {
            assert(before.stack[k - 1] < n);
        }
    }
    assert forall|k: int, i: int|
        0 <= k < after.stack.len() && 0 <= i < after.tree.elements.len() implies #[trigger] after.below(
        k,
        i,
    ) by {
        if k < depth {
            if i < n {
                assert(before.below(k, i));
            } else {
                lemma_stack_increases(before, k, depth - 1);
            }
        }
    }
    assert forall|i: int| 0 < i < after.tree.elements.len() implies #[trigger] after.begun_within(
        i,
    ) by {
        let p = after.tree.elements[i].parent->0;
        if i < n {
            assert(before.begun_within(i));
            assert(before.tree.elements[i].parent is Some);
            assert(p < n);
            if before.is_open(p) {
                let k = choose|k: int| 0 <= k < before.stack.len() && #[trigger] before.stack[k] == p;
                assert(after.stack[k] == p);
            }
        } else {
            assert(before.stack[depth - 1] == p);
            assert(after.stack[depth - 1] == p);
            assert(before.tree.elements[p as int].start <= before.tree.elements[p as int].end
                <= before.tree.text.len());
        }
    }
    assert forall|i: int, k: int|
        0 < i < k < after.tree.elements.len() implies #[trigger] after.tree.in_order(i, k) by {
        if k < n {
            assert(before.tree.in_order(i, k));
        } else {
            assert(before.tree.elements[i].end <= before.tree.text.len());
        }
    }
    assert forall|i: int, k: int|
        0 <= i < k < after.tree.elements.len() implies #[trigger] after.tree.counted(i, k) by {
        if k < n {
            assert(before.tree.counted(i, k));
        } else {
            assert(before.tree.elements[i].first_token <= before.tree.elements[i].end_token
                <= before.tree.tokens.len());
            assert(before.tree.elements[i].start <= before.tree.elements[i].end
                <= before.tree.text.len());
        }
    }
    assert forall|i: int, j: int|
        0 <= i < after.tree.elements.len() && 0 <= j < after.tree.tokens.len() implies #[trigger] after.tree.listed(
        i,
        j,
    ) by {
        if j < before.tree.tokens.len() {
            assert(after.tree.tokens[j] == before.tree.tokens[j]);
            assert(before.tree.tokens[j] < n);
            if i < n {
                assert(before.tree.listed(i, j));
            }
        } else {
            assert(after.tree.tokens[j] == n);
            if i < n {
                assert(before.tree.elements[i].first_token <= before.tree.elements[i].end_token
                    <= before.tree.tokens.len());
            }
        }
    }
}

/// The open nodes have increasing indices.
proof fn lemma_stack_increases(b: BuilderView, k: int, l: int)
    requires
        b.chained(),
        0 <= k <= l < b.stack.len(),
    ensures
        b.stack[k] <= b.stack[l],
    decreases l - k,
{
    if k < l {
        lemma_stack_increases(b, k, l - 1);
        assert(b.linked(l));
    }
}

/// Closing the innermost open node at the end of the text keeps the chain
/// and the nesting.
proof fn lemma_closed_keeps_nesting(before: BuilderView, after: BuilderView)
    requires
        before.wf(),
        before.stack.len() > 0,
        after.tree.shape(),
        after.tree.text == before.tree.text,
        after.stack == before.stack.drop_last(),
        after.tree.elements.len() == before.tree.elements.len(),
        forall|i: int|
            0 <= i < before.tree.elements.len() && i != before.stack.last()
                ==> #[trigger] after.tree.elements[i] == before.tree.elements[i],
        after.tree.elements[before.stack.last() as int].parent
            == before.tree.elements[before.stack.last() as int].parent,
        after.tree.elements[before.stack.last() as int].start
            == before.tree.elements[before.stack.last() as int].start,
        after.tree.elements[before.stack.last() as int].end == before.tree.text.len(),
        after.tree.elements[before.stack.last() as int].first_token
            == before.tree.elements[before.stack.last() as int].first_token,
        after.tree.tokens == before.tree.tokens,
        !after.tree.elements[before.stack.last() as int].is_token,
    ensures
        after.chained(),
        after.nested_so_far(),
        after.tree.covered(),
{
    let n = before.tree.elements.len() as int;
    let last = before.stack.len() - 1;
    let top = before.stack[last] as int;
    assert forall|p: int| 0 <= p < after.tree.text.len() implies #[trigger] after.tree.in_token(
        p,
    ) by {
        assert(before.tree.in_token(p));
        let i = choose|i: int| #[trigger] before.tree.holds(i, p);
        assert(after.tree.holds(i, p));
    }
    assert forall|k: int| 0 <= k < last implies #[trigger] after.stack[k] == before.stack[k]
        && before.stack[k] < top by {
        lemma_stack_increases(before, k, last - 1);
        assert(before.linked(last));
    }
    assert forall|i: int| 0 <= i < n implies (#[trigger] after.tree.elements[i]).parent
        == before.tree.elements[i].parent && after.tree.elements[i].start
        == before.tree.elements[i].start by {}
    assert forall|k: int| 0 < k < after.stack.len() implies #[trigger] after.linked(k) by {
        assert(before.linked(k));
        assert(after.stack[k] == before.stack[k]);
        assert(after.stack[k - 1] == before.stack[k - 1]);
    }
    assert forall|k: int, i: int|
        0 <= k < after.stack.len() && 0 <= i < after.tree.elements.len() implies #[trigger] after.below(
        k,
        i,
    ) by {
        assert(before.below(k, i));
        assert(after.stack[k] == before.stack[k]);
    }
    if last == 0 {
        assert(top == 0);
    } else {
        assert(after.stack[0] == before.stack[0]);
    }
    assert forall|i: int| 0 < i < after.tree.elements.len() implies #[trigger] after.begun_within(
        i,
    ) by {
        let p = before.tree.elements[i].parent->0;
        assert(before.begun_within(i));
        assert(before.tree.elements[i].parent is Some);
        assert(p < i);
        assert(before.tree.elements[i].end <= before.tree.text.len());
        assert(before.tree.elements[p as int].start <= before.tree.elements[p as int].end);
        if !after.is_open(p) {
            if p == top {
                // The parent was closed just now, at the end of the text.
                assert(i != top);
            } else {
                if before.is_open(p) {
                    let k = choose|k: int| 0 <= k < before.stack.len() && #[trigger] before.stack[k] == p;
                    assert(k < last);
                    assert(after.stack[k] == p);
                }
                if i == top {
                    // The node closed just now is the child of an open one.
                    assert(last > 0);
                    assert(before.linked(last));
                    assert(after.stack[last - 1] == p);
                }
            }
        }
    }
    assert forall|i: int, k: int|
        0 <= i < k < after.tree.elements.len() implies #[trigger] after.tree.counted(i, k) by {
        assert(before.tree.counted(i, k));
        assert(!before.tree.elements[top].is_token);
    }
    assert forall|i: int, j: int|
        0 <= i < after.tree.elements.len() && 0 <= j < after.tree.tokens.len() implies #[trigger] after.tree.listed(
        i,
        j,
    ) by {
        assert(before.tree.listed(i, j));
    }
    assert forall|i: int, k: int|
        0 < i < k < after.tree.elements.len() implies #[trigger] after.tree.in_order(i, k) by {
        assert(before.tree.in_order(i, k));
        if i == top {
            assert(before.below(last, k));
            assert(before.tree.elements[i].parent is Some);
            assert(before.tree.elements[k].parent is Some);
        }
    }
}

/// Once feeding has failed, further steps do not change the failure.
pub proof fn lemma_feed_all_sticky(steps: Seq<StepView>, n: int, m: int)
    requires
        0 <= n <= m,
        feed_all(steps, n) is Err,
    ensures
        feed_all(steps, m) == feed_all(steps, n),
    decreases m - n,
{
    if n < m {
        lemma_feed_all_sticky(steps, n, m - 1);
    }
}

} // verus!
