//! What holds of syntax trees, said of the elements themselves.

use crate::laws::{law_children_are_all_in_order, law_found_where_there_is_one};
use crate::text::PieceView;
use crate::tree::{
    children, continues_tree, first_child, id, ids, is_at_offset, is_child,
    is_shortest_at_offset, is_tree, is_within, lemma_within_is_after, node_at_offset, text_below,
    text_of, Class, ElementView, SyntaxKind, TextRange,
};
use vstd::prelude::*;

verus! {

/// Whether elements of the kind are neither patterns nor expressions nor tokens.
pub open spec fn is_frame(kind: SyntaxKind) -> bool {
    ||| kind == SyntaxKind::MatchArmList
    ||| kind == SyntaxKind::MatchArm
    ||| kind == SyntaxKind::MatchGuard
    ||| kind == SyntaxKind::Path
    ||| kind == SyntaxKind::NameRef
    ||| kind == SyntaxKind::RecordPatFieldList
    ||| kind == SyntaxKind::RecordPatField
    ||| kind == SyntaxKind::OtherNode
}

/// Whether elements of the kind are words of the file.
pub open spec fn is_word(kind: SyntaxKind) -> bool {
    kind == SyntaxKind::Comma || kind == SyntaxKind::Whitespace || kind == SyntaxKind::OtherToken
}

/// Whether elements of the kind are bodies.
pub open spec fn is_body(kind: SyntaxKind) -> bool {
    kind == SyntaxKind::BlockLikeExpr || kind == SyntaxKind::Expr
}

/// Whether elements of the kind are patterns: whatever is nothing else is one.
pub open spec fn is_pattern(kind: SyntaxKind) -> bool {
    !is_frame(kind) && !is_word(kind) && !is_body(kind)
}

/// Every kind is of one sort: a pattern, an expression, a token or none of these; and every kind
/// that is none of the other sorts counts as a pattern.
pub proof fn law_every_kind_is_of_one_sort(kind: SyntaxKind)
    ensures
        kind.is_token() <==> is_word(kind),
        kind.is_expr() <==> is_body(kind),
        kind.is_pat() <==> is_pattern(kind),
{
}

/// Whether the kind is one that the class asks for.
pub open spec fn is_asked_for(class: Class, kind: SyntaxKind) -> bool {
    match class {
        Class::Kind(own) => kind == own,
        Class::Pat => is_pattern(kind),
        Class::Expr => is_body(kind),
    }
}

/// Whether each is less than those behind it.
pub open spec fn is_rising(numbers: Seq<int>) -> bool {
    forall|k: int, l: int|
        0 <= k < l < numbers.len() ==> #[trigger] numbers[k] < #[trigger] numbers[l]
}

/// Two rising lists of the same numbers are one.
pub proof fn lemma_rising_are_equal(first: Seq<int>, second: Seq<int>)
    requires
        is_rising(first),
        is_rising(second),
        forall|n: int| #[trigger] first.contains(n) <==> #[trigger] second.contains(n),
    ensures
        first == second,
    decreases first.len(),
{
    if first.len() == 0 {
        if second.len() > 0 {
            assert(second.contains(second[0]));
            assert(first.contains(second[0]));
        }
        assert(first =~= second);
    } else {
        assert(first.contains(first.last()));
        assert(second.contains(first.last()));
        assert(second.contains(second.last()));
        assert(first.contains(second.last()));
        let i = choose|i: int| 0 <= i < second.len() && second[i] == first.last();
        let j = choose|j: int| 0 <= j < first.len() && first[j] == second.last();
        assert(first.last() == second.last()) by {
            if i < second.len() - 1 && j < first.len() - 1 {
                assert(second[i] < second[second.len() - 1]);
                assert(first[j] < first[first.len() - 1]);
            }
        }
        let a = first.drop_last();
        let b = second.drop_last();
        assert forall|n: int| #[trigger] a.contains(n) <==> #[trigger] b.contains(n) by {
            if a.contains(n) {
                let k = choose|k: int| 0 <= k < a.len() && a[k] == n;
                assert(first[k] < first[first.len() - 1]);
                assert(first.contains(n));
                assert(second.contains(n));
                let l = choose|l: int| 0 <= l < second.len() && second[l] == n;
                assert(b[l] == n);
            }
            if b.contains(n) {
                let k = choose|k: int| 0 <= k < b.len() && b[k] == n;
                assert(second[k] < second[second.len() - 1]);
                assert(second.contains(n));
                assert(first.contains(n));
                let l = choose|l: int| 0 <= l < first.len() && first[l] == n;
                assert(a[l] == n);
            }
        }
        lemma_rising_are_equal(a, b);
        assert(first =~= a.push(first.last()));
        assert(second =~= b.push(second.last()));
    }
}

/// Whether these are the elements of the class that stand in `node`, in the order of the file.
pub open spec fn are_children(
    tree: Seq<ElementView>,
    node: int,
    class: Class,
    found: Seq<int>,
) -> bool {
    &&& is_rising(found)
    &&& forall|i: int| #[trigger]
        found.contains(i) <==> 0 <= i < tree.len() && tree[i].parent == Some(node) && is_asked_for(
            class,
            tree[i].kind,
        )
}

/// The children of a node in a class are all elements that stand in the node and are of the
/// class, and no others; no other list has these in their order.
pub proof fn law_children_are_all_of_the_class(
    tree: Seq<ElementView>,
    node: int,
    class: Class,
    found: Seq<int>,
)
    ensures
        are_children(tree, node, class, found) <==> found == children(tree, node, class),
{
    let own = children(tree, node, class);
    law_children_are_all_in_order(tree, node, class);
    assert forall|i: int| #[trigger]
        own.contains(i) <==> 0 <= i < tree.len() && tree[i].parent == Some(node) && is_asked_for(
            class,
            tree[i].kind,
        ) by {
        law_every_kind_is_of_one_sort(tree[i].kind);
        let is_own = is_child(tree, node, class, i);
        assert(is_own == (tree[i].parent == Some(node) && is_asked_for(class, tree[i].kind)));
    }
    assert(are_children(tree, node, class, own));
    if are_children(tree, node, class, found) {
        lemma_rising_are_equal(found, own);
    }
}

/// The first child of a node in a class is the first element that stands in the node and is of
/// the class; there is none just where there is no such element.
pub proof fn law_first_child_is_the_first(tree: Seq<ElementView>, node: int, class: Class)
    ensures
        match first_child(tree, node, class) {
            Some(child) => {
                &&& 0 <= child < tree.len()
                &&& tree[child].parent == Some(node)
                &&& is_asked_for(class, tree[child].kind)
                &&& forall|i: int|
                    0 <= i < child && (#[trigger] tree[i]).parent == Some(node) ==> !is_asked_for(
                        class,
                        tree[i].kind,
                    )
            },
            None => forall|i: int|
                0 <= i < tree.len() && (#[trigger] tree[i]).parent == Some(node) ==> !is_asked_for(
                    class,
                    tree[i].kind,
                ),
        },
{
    let own = children(tree, node, class);
    law_children_are_all_of_the_class(tree, node, class, own);
    if own.len() > 0 {
        assert(own.contains(own[0]));
        assert forall|i: int| 0 <= i < own[0] && (#[trigger] tree[i]).parent == Some(
            node,
        ) implies !is_asked_for(class, tree[i].kind) by {
            if is_asked_for(class, tree[i].kind) {
                assert(own.contains(i));
                let k = choose|k: int| 0 <= k < own.len() && own[k] == i;
                assert(own[0] <= own[k]);
            }
        }
    } else {
        assert forall|i: int| 0 <= i < tree.len() && (#[trigger] tree[i]).parent == Some(
            node,
        ) implies !is_asked_for(class, tree[i].kind) by {
            assert(!own.contains(i));
        }
    }
}

/// Whether the element at `k` of the list is the parent of the one before it.
pub open spec fn is_step_up(tree: Seq<ElementView>, way: Seq<int>, k: int) -> bool {
    tree[way[k - 1]].parent == Some(way[k])
}

/// Whether the elements lead from the first of them up, each time to the parent.
pub open spec fn is_way_up(tree: Seq<ElementView>, way: Seq<int>) -> bool {
    &&& way.len() > 0
    &&& forall|k: int| 0 < k < way.len() ==> #[trigger] is_step_up(tree, way, k)
}

/// Whether there is a way up from `below` to `node`.
pub open spec fn can_be_reached(tree: Seq<ElementView>, node: int, below: int) -> bool {
    exists|way: Seq<int>| #[trigger]
        is_way_up(tree, way) && way[0] == below && way[way.len() - 1] == node
}

proof fn lemma_way_up_is_within(tree: Seq<ElementView>, way: Seq<int>)
    requires
        is_tree(tree),
        is_way_up(tree, way),
        0 <= way[0] < tree.len(),
    ensures
        is_within(tree, way[way.len() - 1], way[0]),
    decreases way.len(),
{
    if way.len() > 1 {
        let rest = way.skip(1);
        assert(continues_tree(tree, way[0]));
        assert(is_step_up(tree, way, 1));
        assert forall|k: int| 0 < k < rest.len() implies #[trigger] is_step_up(tree, rest, k) by {
            assert(is_step_up(tree, way, k + 1));
        }
        lemma_way_up_is_within(tree, rest);
        assert(rest[rest.len() - 1] == way[way.len() - 1]);
    }
}

proof fn lemma_within_has_way_up(tree: Seq<ElementView>, node: int, below: int)
    requires
        is_within(tree, node, below),
    ensures
        can_be_reached(tree, node, below),
    decreases below,
{
    if below == node {
        assert(is_way_up(tree, seq![below]));
        assert(seq![below][0] == below);
    } else {
        let parent = tree[below].parent.unwrap();
        lemma_within_has_way_up(tree, node, parent);
        let rest = choose|way: Seq<int>| #[trigger]
            is_way_up(tree, way) && way[0] == parent && way[way.len() - 1] == node;
        let way = seq![below] + rest;
        assert forall|k: int| 0 < k < way.len() implies #[trigger] is_step_up(tree, way, k) by {
            if k > 1 {
                assert(is_step_up(tree, rest, k - 1));
            }
        }
        assert(is_way_up(tree, way));
        assert(way[way.len() - 1] == rest[rest.len() - 1]);
    }
}

/// An element is within a node just where going up from it, each time to the parent, leads to
/// the node.
pub proof fn law_within_is_by_way_of_parents(tree: Seq<ElementView>, node: int, below: int)
    requires
        is_tree(tree),
        0 <= below < tree.len(),
    ensures
        is_within(tree, node, below) <==> can_be_reached(tree, node, below),
{
    if is_within(tree, node, below) {
        lemma_within_has_way_up(tree, node, below);
    }
    if can_be_reached(tree, node, below) {
        let way = choose|way: Seq<int>| #[trigger]
            is_way_up(tree, way) && way[0] == below && way[way.len() - 1] == node;
        lemma_way_up_is_within(tree, way);
    }
}

/// Whether these are all tokens of the file that stand within `node`, in their order.
pub open spec fn are_tokens_of(tree: Seq<ElementView>, node: int, tokens: Seq<int>) -> bool {
    &&& is_rising(tokens)
    &&& forall|t: int| #[trigger]
        tokens.contains(t) <==> 0 <= t < tree.len() && is_word(tree[t].kind) && is_within(
            tree,
            node,
            t,
        )
}

/// Whether the text has just these tokens, each as it stands in the file.
pub open spec fn is_made_of(
    tree: Seq<ElementView>,
    tokens: Seq<int>,
    text: Seq<PieceView>,
) -> bool {
    &&& text.len() == tokens.len()
    &&& forall|k: int|
        0 <= k < tokens.len() ==> {
            &&& (#[trigger] text[k]).text == tree[tokens[k]].text
            &&& text[k].whitespace <==> tree[tokens[k]].kind == SyntaxKind::Whitespace
        }
}

proof fn lemma_text_below(tree: Seq<ElementView>, node: int, count: int) -> (tokens: Seq<int>)
    requires
        0 <= count <= tree.len(),
    ensures
        is_rising(tokens),
        forall|t: int| #[trigger]
            tokens.contains(t) <==> 0 <= t < count && is_word(tree[t].kind) && is_within(
                tree,
                node,
                t,
            ),
        is_made_of(tree, tokens, text_below(tree, node, count)),
    decreases count,
{
    if count == 0 {
        Seq::empty()
    } else {
        let last = count - 1;
        let before = lemma_text_below(tree, node, last);
        if is_word(tree[last].kind) && is_within(tree, node, last) {
            let tokens = before.push(last);
            assert forall|k: int, l: int| 0 <= k < l < tokens.len() implies #[trigger] tokens[k]
                < #[trigger] tokens[l] by {
                assert(before.contains(before[k]));
            }
            assert forall|t: int| #[trigger]
                tokens.contains(t) <==> 0 <= t < count && is_word(tree[t].kind) && is_within(
                    tree,
                    node,
                    t,
                ) by {
                if tokens.contains(t) && t != last {
                    let k = choose|k: int| 0 <= k < tokens.len() && tokens[k] == t;
                    assert(before[k] == t);
                    assert(before.contains(t));
                }
                if t == last {
                    assert(tokens[tokens.len() - 1] == t);
                } else if before.contains(t) {
                    let k = choose|k: int| 0 <= k < before.len() && before[k] == t;
                    assert(tokens[k] == t);
                }
            }
            tokens
        } else {
            before
        }
    }
}

/// The text of a node is made of all tokens that stand within it, whatever they stand in there,
/// each as it stands in the file and in the order of the file, and of no others.
pub proof fn law_text_is_all_tokens(tree: Seq<ElementView>, node: int)
    ensures
        exists|tokens: Seq<int>| #[trigger]
            are_tokens_of(tree, node, tokens) && is_made_of(tree, tokens, text_of(tree, node)),
        forall|tokens: Seq<int>| #[trigger]
            are_tokens_of(tree, node, tokens) ==> is_made_of(tree, tokens, text_of(tree, node)),
{
    let own = lemma_text_below(tree, node, tree.len() as int);
    assert(are_tokens_of(tree, node, own));
    assert forall|tokens: Seq<int>| #[trigger] are_tokens_of(tree, node, tokens) implies is_made_of(
        tree,
        tokens,
        text_of(tree, node),
    ) by {
        lemma_rising_are_equal(tokens, own);
    }
}

/// Whether the element is of the kind, is not empty and has the offset in it or at an end.
pub open spec fn touches_offset(element: ElementView, kind: SyntaxKind, offset: int) -> bool {
    element.kind == kind && element.range.start < element.range.end && element.range.start <= offset
        && offset <= element.range.end
}

/// What is found at an offset has the offset in it or at an end, is of the kind, and everything
/// else of the kind there is longer, or as long and behind it; nothing is found just where
/// nothing of the kind is there.
pub proof fn law_shortest_is_found(tree: Seq<ElementView>, kind: SyntaxKind, offset: int)
    ensures
        match node_at_offset(tree, kind, offset) {
            Some(node) => {
                &&& 0 <= node < tree.len()
                &&& touches_offset(tree[node], kind, offset)
                &&& forall|i: int|
                    0 <= i < tree.len() && i != node && touches_offset(
                        #[trigger] tree[i],
                        kind,
                        offset,
                    ) ==> {
                        let own = tree[node].range.end - tree[node].range.start;
                        let other = tree[i].range.end - tree[i].range.start;
                        own < other || (own == other && node < i)
                    }
            },
            None => forall|i: int|
                0 <= i < tree.len() ==> !touches_offset(#[trigger] tree[i], kind, offset),
        },
{
    law_found_where_there_is_one(tree, kind, offset);
    assert forall|i: int| 0 <= i < tree.len() && touches_offset(
        #[trigger] tree[i],
        kind,
        offset,
    ) implies is_at_offset(tree, kind, offset, i) by {}
    if let Some(node) = node_at_offset(tree, kind, offset) {
        assert(is_shortest_at_offset(tree, kind, offset, node));
        assert forall|i: int| 0 <= i < tree.len() && i != node && touches_offset(
            #[trigger] tree[i],
            kind,
            offset,
        ) implies ({
            let own = tree[node].range.end - tree[node].range.start;
            let other = tree[i].range.end - tree[i].range.start;
            own < other || (own == other && node < i)
        }) by {
            assert(is_at_offset(tree, kind, offset, i));
        }
    }
}

/// A byte lies in a range from its start up to its end, which is not in it; an offset touches
/// the range there too.
pub proof fn law_end_is_not_in_the_range(range: TextRange, offset: int)
    ensures
        range.holds(offset) <==> range.start <= offset && offset < range.end,
        range.touches(offset) <==> range.holds(offset) || (offset == range.end && range.start
            <= range.end),
{
}

proof fn lemma_within_in_longer(tree: Seq<ElementView>, more: ElementView, node: int, below: int)
    requires
        0 <= below < tree.len(),
    ensures
        is_within(tree.push(more), node, below) == is_within(tree, node, below),
    decreases below,
{
    assert(tree.push(more)[below] == tree[below]);
    if let Some(parent) = tree[below].parent {
        if 0 <= parent < below {
            lemma_within_in_longer(tree, more, node, parent);
        }
    }
}

/// A tree grows at its end: a further element keeps it a tree just where its range is in order
/// and it is the root of an empty tree, or takes up a part of a node that the last element
/// stands within.
pub proof fn law_trees_grow_at_the_end(tree: Seq<ElementView>, more: ElementView)
    ensures
        is_tree(Seq::<ElementView>::empty()),
        is_tree(tree.push(more)) <==> {
            &&& is_tree(tree)
            &&& more.range.start <= more.range.end
            &&& match more.parent {
                Some(parent) => {
                    &&& 0 <= parent < tree.len()
                    &&& !is_word(tree[parent].kind)
                    &&& tree[parent].range.start <= more.range.start
                    &&& more.range.end <= tree[parent].range.end
                    &&& is_within(tree, parent, tree.len() - 1)
                },
                None => tree.len() == 0,
            }
        },
{
    let longer = tree.push(more);
    let last = tree.len() as int;
    assert forall|i: int| 0 <= i < tree.len() implies continues_tree(longer, i) == #[trigger]
        continues_tree(tree, i) by {
        assert(longer[i] == tree[i]);
        if let Some(parent) = tree[i].parent {
            if 0 <= parent < i {
                assert(longer[parent] == tree[parent]);
                lemma_within_in_longer(tree, more, parent, i - 1);
            }
        }
    }
    assert(longer[last] == more);
    if let Some(parent) = more.parent {
        if 0 <= parent < last {
            assert(longer[parent] == tree[parent]);
            lemma_within_in_longer(tree, more, parent, last - 1);
        }
    }
    if is_tree(longer) {
        assert(continues_tree(longer, last));
        assert forall|i: int| 0 <= i < tree.len() implies #[trigger] continues_tree(tree, i) by {
            assert(continues_tree(longer, i));
        }
    }
    if is_tree(tree) && continues_tree(longer, last) {
        assert forall|i: int| 0 <= i < longer.len() implies #[trigger] continues_tree(
            longer,
            i,
        ) by {
            if i < last {
                assert(continues_tree(tree, i));
            }
        }
    }
}

/// Of two nodes in the same node neither is within the other.
pub proof fn law_siblings_are_apart(tree: Seq<ElementView>, first: int, second: int)
    requires
        is_tree(tree),
        0 <= first < tree.len(),
        0 <= second < tree.len(),
        first != second,
        tree[first].parent == tree[second].parent,
        tree[first].parent is Some,
    ensures
        !is_within(tree, first, second),
{
    assert(continues_tree(tree, first));
    assert(continues_tree(tree, second));
    if is_within(tree, first, second) {
        lemma_within_is_after(tree, first, tree[second].parent.unwrap());
    }
}

/// Places in the list are the same numbers as integers.
pub proof fn law_places_are_numbers(nodes: Seq<usize>, node: usize)
    ensures
        id(None) is None,
        id(Some(node)) == Some(node as int),
        ids(nodes).len() == nodes.len(),
        forall|i: int| 0 <= i < nodes.len() ==> #[trigger] ids(nodes)[i] == nodes[i] as int,
{
}

} // verus!
