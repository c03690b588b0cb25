//! The syntax tree of one source file.
//!
//! Nodes and tokens stand in one list, in the order in which they begin in the file, a node
//! before what is below it. An element is named by its place in that list.

use crate::text::{Piece, PieceView};
use vstd::prelude::*;

verus! {

/// The half-open range of byte offsets that an element takes up.
#[derive(Clone, Copy, Debug, PartialEq, Eq, Structural)]
pub struct TextRange {
    pub start: usize,
    pub end: usize,
}

impl TextRange {
    /// Whether the byte at `offset` lies in the range.
    pub open spec fn holds(self, offset: int) -> bool {
        self.start <= offset < self.end
    }

    /// Whether `offset` lies in the range or at its end.
    pub open spec fn touches(self, offset: int) -> bool {
        self.start <= offset <= self.end
    }

    /// Whether all of `other` lies in the range.
    pub open spec fn covers(self, other: TextRange) -> bool {
        self.start <= other.start && other.end <= self.end
    }

    /// Whether the byte at `offset` lies in the range.
    pub fn contains(&self, offset: usize) -> (contained: bool)
        ensures
            contained == self.holds(offset as int),
    {
        self.start <= offset && offset < self.end
    }
}

/// The kinds of elements that matter to case splitting, and three for all others.
#[derive(Clone, Copy, Debug, PartialEq, Eq, Structural)]
pub enum SyntaxKind {
    MatchArmList,
    MatchArm,
    MatchGuard,
    Path,
    NameRef,
    RecordPatFieldList,
    RecordPatField,
    BoxPat,
    ConstBlockPat,
    IdentPat,
    LiteralPat,
    MacroPat,
    OrPat,
    ParenPat,
    PathPat,
    RangePat,
    RecordPat,
    RefPat,
    RestPat,
    SlicePat,
    TuplePat,
    TupleStructPat,
    WildcardPat,
    /// An expression that needs no comma behind it as the body of an arm.
    BlockLikeExpr,
    /// Any other expression.
    Expr,
    /// Any other node.
    OtherNode,
    /// The token `,`.
    Comma,
    /// A whitespace token.
    Whitespace,
    /// Any other token.
    OtherToken,
}

impl SyntaxKind {
    /// Whether elements of this kind are tokens.
    pub open spec fn is_token_spec(self) -> bool {
        self is Comma || self is Whitespace || self is OtherToken
    }

    /// Whether elements of this kind are tokens.
    #[verifier::when_used_as_spec(is_token_spec)]
    pub fn is_token(self) -> (token: bool)
        ensures
            token == self.is_token_spec(),
    {
        match self {
            SyntaxKind::Comma | SyntaxKind::Whitespace | SyntaxKind::OtherToken => true,
            _ => false,
        }
    }

    /// Whether elements of this kind are patterns.
    pub open spec fn is_pat_spec(self) -> bool {
        match self {
            SyntaxKind::BoxPat
            | SyntaxKind::ConstBlockPat
            | SyntaxKind::IdentPat
            | SyntaxKind::LiteralPat
            | SyntaxKind::MacroPat
            | SyntaxKind::OrPat
            | SyntaxKind::ParenPat
            | SyntaxKind::PathPat
            | SyntaxKind::RangePat
            | SyntaxKind::RecordPat
            | SyntaxKind::RefPat
            | SyntaxKind::RestPat
            | SyntaxKind::SlicePat
            | SyntaxKind::TuplePat
            | SyntaxKind::TupleStructPat
            | SyntaxKind::WildcardPat => true,
            _ => false,
        }
    }

    /// Whether elements of this kind are patterns.
    #[verifier::when_used_as_spec(is_pat_spec)]
    pub fn is_pat(self) -> (pat: bool)
        ensures
            pat == self.is_pat_spec(),
    {
        match self {
            SyntaxKind::BoxPat
            | SyntaxKind::ConstBlockPat
            | SyntaxKind::IdentPat
            | SyntaxKind::LiteralPat
            | SyntaxKind::MacroPat
            | SyntaxKind::OrPat
            | SyntaxKind::ParenPat
            | SyntaxKind::PathPat
            | SyntaxKind::RangePat
            | SyntaxKind::RecordPat
            | SyntaxKind::RefPat
            | SyntaxKind::RestPat
            | SyntaxKind::SlicePat
            | SyntaxKind::TuplePat
            | SyntaxKind::TupleStructPat
            | SyntaxKind::WildcardPat => true,
            _ => false,
        }
    }

    /// Whether elements of this kind are expressions.
    pub open spec fn is_expr_spec(self) -> bool {
        self is BlockLikeExpr || self is Expr
    }

    /// Whether elements of this kind are expressions.
    #[verifier::when_used_as_spec(is_expr_spec)]
    pub fn is_expr(self) -> (expr: bool)
        ensures
            expr == self.is_expr_spec(),
    {
        match self {
            SyntaxKind::BlockLikeExpr | SyntaxKind::Expr => true,
            _ => false,
        }
    }
}

/// What children are asked for: those of one kind, the patterns or the expressions.
#[derive(Clone, Copy, Debug, PartialEq, Eq, Structural)]
pub enum Class {
    Kind(SyntaxKind),
    Pat,
    Expr,
}

impl Class {
    /// Whether elements of `kind` are in the class.
    pub open spec fn has_spec(self, kind: SyntaxKind) -> bool {
        match self {
            Class::Kind(own) => own == kind,
            Class::Pat => kind.is_pat(),
            Class::Expr => kind.is_expr(),
        }
    }

    /// Whether elements of `kind` are in the class.
    #[verifier::when_used_as_spec(has_spec)]
    pub fn has(self, kind: SyntaxKind) -> (member: bool)
        ensures
            member == self.has_spec(kind),
    {
        match self {
            Class::Kind(own) => own == kind,
            Class::Pat => kind.is_pat(),
            Class::Expr => kind.is_expr(),
        }
    }
}

/// What an [`Element`] stands for.
pub struct ElementView {
    pub kind: SyntaxKind,
    pub parent: Option<int>,
    pub range: TextRange,
    pub text: Seq<char>,
}

/// A node or a token.
#[derive(Debug)]
pub struct Element {
    pub kind: SyntaxKind,
    /// The node that the element stands in, unless it is the root.
    pub parent: Option<usize>,
    pub range: TextRange,
    /// The text of a token. Of a node it is not read.
    pub text: String,
}

impl DeepView for Element {
    type V = ElementView;

    open spec fn deep_view(&self) -> ElementView {
        ElementView {
            kind: self.kind,
            parent: match self.parent {
                Some(parent) => Some(parent as int),
                None => None,
            },
            range: self.range,
            text: self.text@,
        }
    }
}

/// Whether `below` is `node` or stands anywhere below it.
pub open spec fn is_within(tree: Seq<ElementView>, node: int, below: int) -> bool
    decreases below,
{
    ||| below == node
    ||| match tree[below].parent {
        Some(parent) => 0 <= parent < below && is_within(tree, node, parent),
        None => false,
    }
}

/// Whether the element at `i` continues the tree of those before it: it is the root, or it
/// stands in the element before it or in a node above that one, and takes up a part of what
/// its parent does.
pub open spec fn continues_tree(tree: Seq<ElementView>, i: int) -> bool {
    &&& tree[i].range.start <= tree[i].range.end
    &&& match tree[i].parent {
        Some(parent) => {
            &&& 0 <= parent < i
            &&& !tree[parent].kind.is_token()
            &&& tree[parent].range.covers(tree[i].range)
            &&& is_within(tree, parent, i - 1)
        },
        None => i == 0,
    }
}

/// Whether the elements are those of a tree, in the order of the file.
pub open spec fn is_tree(tree: Seq<ElementView>) -> bool {
    forall|i: int| 0 <= i < tree.len() ==> #[trigger] continues_tree(tree, i)
}

/// Whether the element at `i` is a child of `node` in the class.
pub open spec fn is_child(tree: Seq<ElementView>, node: int, class: Class, i: int) -> bool {
    tree[i].parent == Some(node) && class.has(tree[i].kind)
}

/// The children of `node` in the class among the first `count` elements.
pub open spec fn children_below(tree: Seq<ElementView>, node: int, class: Class, count: int) -> Seq<
    int,
>
    decreases count,
{
    if count <= 0 {
        Seq::empty()
    } else if is_child(tree, node, class, count - 1) {
        children_below(tree, node, class, count - 1).push(count - 1)
    } else {
        children_below(tree, node, class, count - 1)
    }
}

/// The children of `node` in the class, in the order of the file.
pub open spec fn children(tree: Seq<ElementView>, node: int, class: Class) -> Seq<int> {
    children_below(tree, node, class, tree.len() as int)
}

/// The first child of `node` in the class.
pub open spec fn first_child(tree: Seq<ElementView>, node: int, class: Class) -> Option<int> {
    let all = children(tree, node, class);
    if all.len() == 0 {
        None
    } else {
        Some(all[0])
    }
}

/// The piece of text that a token is.
pub open spec fn token_piece(token: ElementView) -> PieceView {
    PieceView { whitespace: token.kind is Whitespace, text: token.text }
}

/// The text of those tokens of `node` that are among the first `count` elements.
pub open spec fn text_below(tree: Seq<ElementView>, node: int, count: int) -> Seq<PieceView>
    decreases count,
{
    if count <= 0 {
        Seq::empty()
    } else if tree[count - 1].kind.is_token() && is_within(tree, node, count - 1) {
        text_below(tree, node, count - 1).push(token_piece(tree[count - 1]))
    } else {
        text_below(tree, node, count - 1)
    }
}

/// The text of `node`: its tokens, in the order of the file.
pub open spec fn text_of(tree: Seq<ElementView>, node: int) -> Seq<PieceView> {
    text_below(tree, node, tree.len() as int)
}

/// Whether the element at `i` is of the kind, is not empty and has `offset` in it or at one of
/// its ends.
pub open spec fn is_at_offset(
    tree: Seq<ElementView>,
    kind: SyntaxKind,
    offset: int,
    i: int,
) -> bool {
    &&& 0 <= i < tree.len()
    &&& tree[i].kind == kind
    &&& tree[i].range.start < tree[i].range.end
    &&& tree[i].range.touches(offset)
}

/// Whether `node` is the shortest of the elements of the kind at `offset`, and the first of
/// these where several are the shortest.
pub open spec fn is_shortest_at_offset(
    tree: Seq<ElementView>,
    kind: SyntaxKind,
    offset: int,
    node: int,
) -> bool {
    &&& is_at_offset(tree, kind, offset, node)
    &&& forall|i: int| #[trigger]
        is_at_offset(tree, kind, offset, i) ==> {
            let own = tree[node].range.end - tree[node].range.start;
            let other = tree[i].range.end - tree[i].range.start;
            own < other || own == other && node <= i
        }
}

/// The shortest element of the kind at `offset`, if there is one.
pub open spec fn node_at_offset(tree: Seq<ElementView>, kind: SyntaxKind, offset: int) -> Option<
    int,
> {
    if exists|node: int| is_shortest_at_offset(tree, kind, offset, node) {
        Some(choose|node: int| is_shortest_at_offset(tree, kind, offset, node))
    } else {
        None
    }
}

/// The numbers as integers.
pub open spec fn ids(nodes: Seq<usize>) -> Seq<int> {
    nodes.map_values(|node: usize| node as int)
}

/// A place in the list as an integer.
pub open spec fn id(node: Option<usize>) -> Option<int> {
    match node {
        Some(node) => Some(node as int),
        None => None,
    }
}

/// The syntax tree of one source file.
#[derive(Debug)]
pub struct SyntaxTree {
    elements: Vec<Element>,
}

impl View for SyntaxTree {
    type V = Seq<ElementView>;

    closed spec fn view(&self) -> Seq<ElementView> {
        self.elements.deep_view()
    }
}

/// What stands above an element comes before it in the list.
pub proof fn lemma_within_is_after(tree: Seq<ElementView>, node: int, below: int)
    requires
        is_within(tree, node, below),
    ensures
        node <= below,
    decreases below,
{
    if below != node {
        lemma_within_is_after(tree, node, tree[below].parent.unwrap());
    }
}

fn stands_within(elements: &Vec<Element>, node: usize, below: usize) -> (within: bool)
    requires
        below < elements.len(),
        forall|i: int|
            0 <= i <= below ==> #[trigger] continues_tree(elements.deep_view(), i),
    ensures
        within == is_within(elements.deep_view(), node as int, below as int),
{
    let ghost tree = elements.deep_view();
    let mut current: usize = below;
    while current > node
        invariant
            current <= below < elements.len(),
            tree == elements.deep_view(),
            forall|i: int| 0 <= i <= below ==> #[trigger] continues_tree(tree, i),
            is_within(tree, node as int, below as int) == is_within(
                tree,
                node as int,
                current as int,
            ),
        decreases current,
    {
        assert(continues_tree(tree, current as int));
        assert(tree[current as int] == elements[current as int].deep_view());
        match elements[current].parent {
            Some(parent) => {
                current = parent;
            },
            None => {
                return false;
            },
        }
    }
    proof {
        if is_within(tree, node as int, current as int) {
            lemma_within_is_after(tree, node as int, current as int);
        }
    }
    current == node
}

impl SyntaxTree {
    #[verifier::type_invariant]
    spec fn is_sound(&self) -> bool {
        is_tree(self.elements.deep_view())
    }

    /// The tree of these elements, if they are those of a tree.
    pub fn new(elements: Vec<Element>) -> (tree: Option<SyntaxTree>)
        ensures
            tree is Some <==> is_tree(elements.deep_view()),
            tree matches Some(tree) ==> tree@ == elements.deep_view(),
    {
        let ghost view = elements.deep_view();
        let mut i: usize = 0;
        while i < elements.len()
            invariant
                i <= elements.len(),
                view == elements.deep_view(),
                forall|j: int| 0 <= j < i ==> #[trigger] continues_tree(view, j),
            decreases elements.len() - i,
        {
            let element = &elements[i];
            assert(view[i as int] == element.deep_view());
            let sound = element.range.start <= element.range.end && match element.parent {
                Some(parent) => {
                    parent < i && !elements[parent].kind.is_token() && elements[parent].range.start
                        <= element.range.start && element.range.end <= elements[parent].range.end
                        && stands_within(&elements, parent, i - 1)
                },
                None => i == 0,
            };
            assert(sound == continues_tree(view, i as int));
            if !sound {
                return None;
            }
            i += 1;
        }
        Some(SyntaxTree { elements })
    }

    /// Makes known in proofs that the elements are those of a tree. There is nothing to run.
    pub fn show_tree(&self)
        ensures
            is_tree(self@),
    {
        proof {
            use_type_invariant(self);
        }
    }

    /// How many elements the tree has.
    pub fn len(&self) -> (len: usize)
        ensures
            len == self@.len(),
    {
        self.elements.len()
    }

    /// The kind of an element.
    pub fn kind(&self, node: usize) -> (kind: SyntaxKind)
        requires
            node < self@.len(),
        ensures
            kind == self@[node as int].kind,
    {
        self.elements[node].kind
    }

    /// The node that an element stands in.
    pub fn parent(&self, node: usize) -> (parent: Option<usize>)
        requires
            node < self@.len(),
        ensures
            id(parent) == self@[node as int].parent,
            parent matches Some(parent) ==> parent < node,
    {
        proof {
            use_type_invariant(self);
            assert(continues_tree(self@, node as int));
        }
        self.elements[node].parent
    }

    /// What an element takes up of the file.
    pub fn range(&self, node: usize) -> (range: TextRange)
        requires
            node < self@.len(),
        ensures
            range == self@[node as int].range,
    {
        self.elements[node].range
    }

    /// Whether `below` is `node` or stands anywhere below it.
    pub fn is_within(&self, node: usize, below: usize) -> (within: bool)
        requires
            below < self@.len(),
        ensures
            within == is_within(self@, node as int, below as int),
    {
        proof {
            use_type_invariant(self);
        }
        stands_within(&self.elements, node, below)
    }

    /// The children of `node` in the class, in the order of the file.
    pub fn children(&self, node: usize, class: Class) -> (found: Vec<usize>)
        ensures
            ids(found@) == children(self@, node as int, class),
            forall|i: int| 0 <= i < found.len() ==> #[trigger] found[i] < self@.len(),
    {
        let mut found: Vec<usize> = Vec::new();
        let mut i: usize = 0;
        while i < self.elements.len()
            invariant
                i <= self.elements.len(),
                self.elements.len() == self@.len(),
                ids(found@) == children_below(self@, node as int, class, i as int),
                forall|j: int| 0 <= j < found.len() ==> #[trigger] found[j] < self@.len(),
            decreases self.elements.len() - i,
        {
            let element = &self.elements[i];
            assert(self@[i as int] == element.deep_view());
            let ghost before = found@;
            let is_own = match element.parent {
                Some(parent) => parent == node,
                None => false,
            };
            if is_own && class.has(element.kind) {
                found.push(i);
                assert(ids(found@) =~= ids(before).push(i as int));
            }
            i += 1;
        }
        found
    }

    /// The first child of `node` in the class.
    pub fn first_child(&self, node: usize, class: Class) -> (found: Option<usize>)
        ensures
            id(found) == first_child(self@, node as int, class),
            found matches Some(child) ==> child < self@.len(),
    {
        let all = self.children(node, class);
        assert(ids(all@).len() == all.len());
        if all.len() == 0 {
            None
        } else {
            Some(all[0])
        }
    }

    /// The text of `node`: its tokens, in the order of the file.
    pub fn text(&self, node: usize) -> (text: Vec<Piece>)
        ensures
            text.deep_view() == text_of(self@, node as int),
    {
        let mut text: Vec<Piece> = Vec::new();
        let mut i: usize = 0;
        assert(text.deep_view() =~= text_below(self@, node as int, 0));
        while i < self.elements.len()
            invariant
                i <= self.elements.len(),
                self.elements.len() == self@.len(),
                text.deep_view() == text_below(self@, node as int, i as int),
            decreases self.elements.len() - i,
        {
            let element = &self.elements[i];
            assert(self@[i as int] == element.deep_view());
            let ghost before = text.deep_view();
            if element.kind.is_token() && self.is_within(node, i) {
                let whitespace = match element.kind {
                    SyntaxKind::Whitespace => true,
                    _ => false,
                };
                text.push(Piece { whitespace, text: element.text.clone() });
                assert(text.deep_view() =~= before.push(token_piece(self@[i as int])));
            }
            i += 1;
        }
        text
    }

    /// The shortest element of the kind that has `offset` in it or at one of its ends; the
    /// first of these where several are the shortest.
    pub fn find_node_at_offset(&self, kind: SyntaxKind, offset: usize) -> (found: Option<usize>)
        ensures
            id(found) == node_at_offset(self@, kind, offset as int),
            found matches Some(node) ==> is_shortest_at_offset(
                self@,
                kind,
                offset as int,
                node as int,
            ),
    {
        let mut found: Option<usize> = None;
        let mut i: usize = 0;
        while i < self.elements.len()
            invariant
                i <= self.elements.len(),
                self.elements.len() == self@.len(),
                match found {
                    Some(node) => {
                        &&& node < i
                        &&& is_at_offset(self@, kind, offset as int, node as int)
                        &&& forall|j: int| #[trigger]
                            is_at_offset(self@, kind, offset as int, j) && j < i ==> {
                                let own = self@[node as int].range.end
                                    - self@[node as int].range.start;
                                let other = self@[j].range.end - self@[j].range.start;
                                own < other || own == other && node <= j
                            }
                    },
                    None => forall|j: int|
                        j < i ==> !#[trigger] is_at_offset(self@, kind, offset as int, j),
                },
            decreases self.elements.len() - i,
        {
            let element = &self.elements[i];
            assert(self@[i as int] == element.deep_view());
            let range = element.range;
            if element.kind == kind && range.start < range.end && range.start <= offset && offset
                <= range.end {
                assert(is_at_offset(self@, kind, offset as int, i as int));
                let shorter = match found {
                    Some(node) => {
                        let held = self.elements[node].range;
                        assert(self@[node as int] == self.elements[node as int].deep_view());
                        range.end - range.start < held.end - held.start
                    },
                    None => true,
                };
                if shorter {
                    found = Some(i);
                }
            }
            i += 1;
        }
        proof {
            match found {
                Some(node) => {
                    assert(is_shortest_at_offset(self@, kind, offset as int, node as int));
                    let chosen = choose|node: int|
                        is_shortest_at_offset(self@, kind, offset as int, node);
                    assert(is_shortest_at_offset(self@, kind, offset as int, chosen));
                    assert(is_at_offset(self@, kind, offset as int, chosen));
                    assert(chosen == node);
                },
                None => {
                    assert forall|node: int| !is_shortest_at_offset(
                        self@,
                        kind,
                        offset as int,
                        node,
                    ) by {
                        assert(!is_at_offset(self@, kind, offset as int, node));
                    }
                },
            }
        }
        found
    }
}

} // verus!
