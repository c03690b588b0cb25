//! What holds of case splitting as a whole.

use crate::arms::{existing_arm, indented, new_arm};
use crate::expand::{binding_name, expanded_patterns, variant_pattern};
use crate::pat::{wildcard, PatView};
use crate::replace::{
    context_at, context_from, first_field_name_with, first_holding, has_path, name_of_field_with,
    record_context, replaced_pattern, replacement_context, tuple_struct_context,
    ReplacementContextView,
};
use crate::semantics::{TypeView, VariantView};
use crate::split::{
    all_arms, arms_of, has_splittable_binding, new_arms, old_arms, patterns_for, position,
    split_assist, split_at, AssistContextView,
};
use crate::text::{decimal, digit, spaces, PieceView};
use crate::tree::{
    children, children_below, continues_tree, first_child, is_at_offset, is_child,
    is_shortest_at_offset, is_tree, is_within, lemma_within_is_after, node_at_offset, text_of,
    Class, ElementView, SyntaxKind,
};
use vstd::prelude::*;

pub mod pattern;
pub mod split;
pub mod text;
pub mod tree;
pub mod view;

verus! {

/// The children among the first elements are those of them that stand in the node and are of
/// the class, in order.
proof fn lemma_children_below(tree: Seq<ElementView>, node: int, class: Class, count: int)
    ensures
        forall|k: int|
            0 <= k < children_below(tree, node, class, count).len() ==> {
                let child = #[trigger] children_below(tree, node, class, count)[k];
                0 <= child < count && is_child(tree, node, class, child)
            },
        forall|k: int, l: int|
            0 <= k < l < children_below(tree, node, class, count).len() ==> #[trigger]
            children_below(tree, node, class, count)[k] < #[trigger] children_below(
                tree,
                node,
                class,
                count,
            )[l],
        forall|i: int|
            0 <= i < count && #[trigger] is_child(tree, node, class, i) ==> children_below(
                tree,
                node,
                class,
                count,
            ).contains(i),
    decreases count,
{
    if count > 0 {
        lemma_children_below(tree, node, class, count - 1);
        let before = children_below(tree, node, class, count - 1);
        let all = children_below(tree, node, class, count);
        assert forall|i: int| 0 <= i < count && #[trigger]
            is_child(tree, node, class, i) implies all.contains(i) by {
            if i == count - 1 {
                assert(all[all.len() - 1] == i);
            } else {
                let k = choose|k: int| 0 <= k < before.len() && before[k] == i;
                assert(all[k] == i);
            }
        }
    }
}

/// The children of a node in a class are just the elements that stand in the node and are of
/// the class, each once and in the order of the file.
pub proof fn law_children_are_all_in_order(tree: Seq<ElementView>, node: int, class: Class)
    ensures
        forall|i: int|
            children(tree, node, class).contains(i) <==> 0 <= i < tree.len() && #[trigger]
            is_child(tree, node, class, i),
        forall|k: int, l: int|
            0 <= k < l < children(tree, node, class).len() ==> #[trigger] children(
                tree,
                node,
                class,
            )[k] < #[trigger] children(tree, node, class)[l],
{
    lemma_children_below(tree, node, class, tree.len() as int);
}

/// An element is found at an offset just where there is one of its kind, and it has the offset
/// in it or at one of its ends.
pub proof fn law_found_where_there_is_one(tree: Seq<ElementView>, kind: SyntaxKind, offset: int)
    ensures
        node_at_offset(tree, kind, offset) is Some <==> exists|i: int|
            is_at_offset(tree, kind, offset, i),
        node_at_offset(tree, kind, offset) matches Some(node) ==> is_shortest_at_offset(
            tree,
            kind,
            offset,
            node,
        ),
{
    if exists|i: int| is_at_offset(tree, kind, offset, i) {
        let i = choose|i: int| is_at_offset(tree, kind, offset, i);
        let count = tree.len() as int;
        lemma_shortest_exists(tree, kind, offset, i, count);
        let node = choose|node: int| is_shortest_below(tree, kind, offset, node, count);
        assert(is_shortest_at_offset(tree, kind, offset, node));
    }
}

/// Whether `node` is the shortest of the first `count` elements of the kind at `offset`.
spec fn is_shortest_below(
    tree: Seq<ElementView>,
    kind: SyntaxKind,
    offset: int,
    node: int,
    count: int,
) -> bool {
    &&& is_at_offset(tree, kind, offset, node)
    &&& node < count
    &&& forall|i: int| #[trigger]
        is_at_offset(tree, kind, offset, i) && i < count ==> {
            let own = tree[node].range.end - tree[node].range.start;
            let other = tree[i].range.end - tree[i].range.start;
            own < other || own == other && node <= i
        }
}

/// Among the first `count` elements there is a shortest one where there is one at all.
proof fn lemma_shortest_exists(
    tree: Seq<ElementView>,
    kind: SyntaxKind,
    offset: int,
    i: int,
    count: int,
)
    requires
        is_at_offset(tree, kind, offset, i),
        i < count <= tree.len(),
    ensures
        exists|node: int| is_shortest_below(tree, kind, offset, node, count),
    decreases count,
{
    if exists|j: int| is_at_offset(tree, kind, offset, j) && j < count - 1 {
        let last = count - 1;
        let j = choose|j: int| is_at_offset(tree, kind, offset, j) && j < last;
        lemma_shortest_exists(tree, kind, offset, j, last);
        let node = choose|node: int| is_shortest_below(tree, kind, offset, node, last);
        if is_at_offset(tree, kind, offset, last) && tree[last].range.end - tree[last].range.start
            < tree[node].range.end - tree[node].range.start {
            assert(is_shortest_below(tree, kind, offset, last, count));
        } else {
            assert(is_shortest_below(tree, kind, offset, node, count));
        }
    } else {
        assert(is_shortest_below(tree, kind, offset, i, count));
    }
}

proof fn lemma_position(nodes: Seq<int>, node: int)
    ensures
        match position(nodes, node) {
            Some(i) => {
                &&& 0 <= i < nodes.len()
                &&& nodes[i] == node
                &&& forall|j: int| 0 <= j < i ==> nodes[j] != node
            },
            None => !nodes.contains(node),
        },
    decreases nodes.len(),
{
    if nodes.len() > 0 {
        let before = nodes.drop_last();
        lemma_position(before, node);
        assert forall|i: int| 0 <= i < before.len() implies #[trigger] nodes[i] == before[i] by {}
        if position(before, node) is None {
            assert forall|i: int| 0 <= i < before.len() implies nodes[i] != node by {
                assert(before.contains(before[i]));
            }
        }
    }
}

/// An arm has a number in the list that it stands in, and that number is its own.
pub proof fn law_arm_has_its_number(tree: Seq<ElementView>, arm: int, arm_list: int)
    requires
        0 <= arm < tree.len(),
        tree[arm].kind is MatchArm,
        tree[arm].parent == Some(arm_list),
    ensures
        position(arms_of(tree, arm_list), arm) matches Some(i) && 0 <= i < arms_of(
            tree,
            arm_list,
        ).len() && arms_of(tree, arm_list)[i] == arm,
{
    let class = Class::Kind(SyntaxKind::MatchArm);
    lemma_children_below(tree, arm_list, class, tree.len() as int);
    lemma_position(arms_of(tree, arm_list), arm);
    assert(is_child(tree, arm_list, class, arm));
}

/// A split is of the arm at the cursor: that arm stands at its number in the list, has the
/// pattern and no guard.
pub proof fn law_split_is_of_the_arm_at_the_cursor(ctx: AssistContextView)
    requires
        split_at(ctx) is Some,
    ensures
        ({
            let split = split_at(ctx).unwrap();
            let arms = arms_of(ctx.tree, split.arm_list);
            let arm = arms[split.arm_index];
            &&& 0 <= split.arm_index < arms.len()
            &&& node_at_offset(ctx.tree, SyntaxKind::MatchArm, ctx.offset) == Some(arm)
            &&& ctx.tree[arm].parent == Some(split.arm_list)
            &&& first_child(ctx.tree, arm, Class::Pat) == Some(split.arm_pat)
            &&& first_child(ctx.tree, arm, Class::Kind(SyntaxKind::MatchGuard)) is None
        }),
{
    let arm = node_at_offset(ctx.tree, SyntaxKind::MatchArm, ctx.offset).unwrap();
    let split = split_at(ctx).unwrap();
    lemma_position(arms_of(ctx.tree, split.arm_list), arm);
}

/// The arms before and behind the one that is split stay as they are and where they are; in its
/// place stand the new arms, one for each pattern.
pub proof fn law_other_arms_stay(ctx: AssistContextView)
    requires
        split_at(ctx) is Some,
    ensures
        ({
            let split = split_at(ctx).unwrap();
            let arms = arms_of(ctx.tree, split.arm_list);
            let at = split.arm_index;
            let added = split.patterns.len() as int;
            let all = all_arms(ctx, split);
            &&& added >= 1
            &&& all.len() == arms.len() - 1 + added
            &&& forall|i: int| 0 <= i < at ==> #[trigger] all[i] == existing_arm(ctx.tree, arms[i])
            &&& forall|i: int|
                0 <= i < added ==> #[trigger] all[at + i] == new_arm(
                    replaced_pattern(ctx.tree, split.arm_pat, split.patterns[i], split.context),
                    ctx.expr_fill_default,
                )
            &&& forall|i: int|
                at < i < arms.len() ==> #[trigger] existing_arm(ctx.tree, arms[i]) == all[i - 1
                    + added]
        }),
{
    law_split_is_of_the_arm_at_the_cursor(ctx);
    let split = split_at(ctx).unwrap();
    let old = old_arms(ctx, split);
    let arms = arms_of(ctx.tree, split.arm_list);
    assert(old.len() == arms.len());
    assert(new_arms(ctx, split).len() == split.patterns.len());
}

/// An arm with a guard is not split.
pub proof fn law_guarded_arm_is_not_split(ctx: AssistContextView, arm: int)
    requires
        node_at_offset(ctx.tree, SyntaxKind::MatchArm, ctx.offset) == Some(arm),
        first_child(ctx.tree, arm, Class::Kind(SyntaxKind::MatchGuard)) is Some,
    ensures
        split_assist(ctx) is None,
{
}

/// Where no identifier pattern is at the cursor, nothing is split.
pub proof fn law_only_bindings_are_split(ctx: AssistContextView)
    requires
        forall|i: int| !is_at_offset(ctx.tree, SyntaxKind::IdentPat, ctx.offset, i),
    ensures
        split_assist(ctx) is None,
{
    law_found_where_there_is_one(ctx.tree, SyntaxKind::IdentPat, ctx.offset);
}

/// Where the cursor is not in the pattern of the arm, nothing is split.
pub proof fn law_cursor_is_in_the_pattern(ctx: AssistContextView)
    ensures
        split_at(ctx) matches Some(split) ==> ctx.tree[split.arm_pat].range.holds(ctx.offset),
{
}

/// A binding that is not known to be of an enum or of `bool` is not split.
pub proof fn law_only_enums_and_bools_are_split(ctx: AssistContextView, ident: int)
    requires
        node_at_offset(ctx.tree, SyntaxKind::IdentPat, ctx.offset) == Some(ident),
        match ctx.sema.binding(ident) {
            Some(facts) => facts.binding_type is None || facts.binding_type == Some(
                TypeView::Other,
            ),
            None => true,
        },
    ensures
        split_assist(ctx) is None,
{
}

/// An enum without variants, and one with a variant that cannot be named, is not split.
pub proof fn law_every_variant_must_be_named(ctx: AssistContextView, variants: Seq<VariantView>)
    requires
        match node_at_offset(ctx.tree, SyntaxKind::IdentPat, ctx.offset) {
            Some(ident) => match ctx.sema.binding(ident) {
                Some(facts) => facts.pat_type == Some(TypeView::Enum(variants)),
                None => false,
            },
            None => false,
        },
        variants.len() == 0 || exists|i: int|
            0 <= i < variants.len() && (#[trigger] variants[i]).path is None,
    ensures
        split_assist(ctx) is None,
{
    assert(expanded_patterns(TypeView::Enum(variants)) matches Some(patterns) ==> patterns.len()
        == 0);
}

/// What an assist is about is the binding at the cursor, an identifier pattern that has the
/// cursor in it or at one of its ends.
pub proof fn law_target_is_the_binding_at_the_cursor(ctx: AssistContextView)
    ensures
        split_assist(ctx) matches Some(assist) ==> {
            let pat = split_at(ctx).unwrap().pat;
            &&& is_at_offset(ctx.tree, SyntaxKind::IdentPat, ctx.offset, pat)
            &&& assist.target == ctx.tree[pat].range
            &&& assist.target.touches(ctx.offset)
        },
{
    law_found_where_there_is_one(ctx.tree, SyntaxKind::IdentPat, ctx.offset);
}

/// The patterns of an enum are those of its variants, one for each, in their order.
pub proof fn law_one_pattern_for_each_variant(variants: Seq<VariantView>)
    requires
        forall|i: int| 0 <= i < variants.len() ==> (#[trigger] variants[i]).path is Some,
    ensures
        expanded_patterns(TypeView::Enum(variants)) matches Some(patterns) && patterns.len()
            == variants.len() && forall|i: int|
            0 <= i < variants.len() ==> variant_pattern(variants[i]) == Some(
                #[trigger] patterns[i],
            ),
{
}

proof fn lemma_first_holding(tree: Seq<ElementView>, nodes: Seq<int>, below: int)
    ensures
        match first_holding(tree, nodes, below) {
            Some(i) => {
                &&& 0 <= i < nodes.len()
                &&& is_within(tree, nodes[i], below)
                &&& forall|j: int| 0 <= j < i ==> !is_within(tree, #[trigger] nodes[j], below)
            },
            None => forall|j: int|
                0 <= j < nodes.len() ==> !is_within(tree, #[trigger] nodes[j], below),
        },
    decreases nodes.len(),
{
    if nodes.len() > 0 {
        let before = nodes.drop_last();
        lemma_first_holding(tree, before, below);
        assert forall|j: int| 0 <= j < before.len() implies nodes[j] == before[j] by {}
    }
}

/// Where a binding is said to be in a field of a tuple struct pattern, it stands in that field
/// and in none before it, and the fields are as many as is said.
pub proof fn law_field_holds_the_binding(tree: Seq<ElementView>, node: int, ident: int)
    ensures
        match tuple_struct_context(tree, node, ident) {
            Some(ReplacementContextView::TupleStruct { outer_path, field_index, total_fields }) => {
                let fields = children(tree, node, Class::Pat);
                &&& first_child(tree, node, Class::Kind(SyntaxKind::Path)) == Some(outer_path)
                &&& total_fields == fields.len()
                &&& 0 <= field_index < total_fields
                &&& is_within(tree, fields[field_index], ident)
                &&& forall|j: int|
                    0 <= j < field_index ==> !is_within(tree, #[trigger] fields[j], ident)
            },
            Some(_) => false,
            None => true,
        },
{
    lemma_first_holding(tree, children(tree, node, Class::Pat), ident);
}

proof fn lemma_first_field_name(tree: Seq<ElementView>, fields: Seq<int>, ident: int)
    ensures
        match first_field_name_with(tree, fields, ident) {
            Some(name) => exists|i: int|
                0 <= i < fields.len() && name_of_field_with(tree, #[trigger] fields[i], ident)
                    == Some(name) && forall|j: int|
                    0 <= j < i ==> name_of_field_with(tree, #[trigger] fields[j], ident) is None,
            None => forall|j: int|
                0 <= j < fields.len() ==> name_of_field_with(tree, #[trigger] fields[j], ident)
                    is None,
        },
    decreases fields.len(),
{
    if fields.len() > 0 {
        let before = fields.drop_last();
        lemma_first_field_name(tree, before, ident);
        assert forall|j: int| 0 <= j < before.len() implies fields[j] == before[j] by {}
        match first_field_name_with(tree, before, ident) {
            Some(name) => {
                let i = choose|i: int|
                    0 <= i < before.len() && name_of_field_with(tree, #[trigger] before[i], ident)
                        == Some(name) && forall|j: int|
                        0 <= j < i ==> name_of_field_with(tree, #[trigger] before[j], ident)
                            is None;
                assert(fields[i] == before[i]);
            },
            None => {
                let last = fields.len() - 1;
                assert(fields[last] == fields.last());
            },
        }
    }
}

/// Where a binding is said to be in a field of a record pattern, that is the first field that
/// is written with its name and has the binding in its pattern.
pub proof fn law_named_field_holds_the_binding(tree: Seq<ElementView>, node: int, ident: int)
    ensures
        match record_context(tree, node, ident) {
            Some(ReplacementContextView::Record { outer_path, field_name }) => {
                let list = first_child(
                    tree,
                    node,
                    Class::Kind(SyntaxKind::RecordPatFieldList),
                ).unwrap();
                let fields = children(tree, list, Class::Kind(SyntaxKind::RecordPatField));
                &&& first_child(tree, node, Class::Kind(SyntaxKind::Path)) == Some(outer_path)
                &&& exists|i: int|
                    0 <= i < fields.len() && name_of_field_with(tree, #[trigger] fields[i], ident)
                        == Some(field_name) && forall|j: int|
                        0 <= j < i ==> name_of_field_with(tree, #[trigger] fields[j], ident)
                            is None
            },
            Some(_) => false,
            None => true,
        },
{
    let list = first_child(tree, node, Class::Kind(SyntaxKind::RecordPatFieldList));
    if list is Some {
        let fields = children(tree, list.unwrap(), Class::Kind(SyntaxKind::RecordPatField));
        lemma_first_field_name(tree, fields, ident);
    }
}

/// Whether `node` stands above `below`.
pub open spec fn is_above(tree: Seq<ElementView>, node: int, below: int) -> bool {
    node != below && is_within(tree, node, below)
}

/// Whether `node` stands above `ident` and is not beyond the pattern of the arm.
pub open spec fn is_on_the_way(
    tree: Seq<ElementView>,
    node: int,
    ident: int,
    arm_pat: int,
) -> bool {
    &&& is_above(tree, node, ident)
    &&& !(is_above(tree, node, arm_pat) && is_above(tree, arm_pat, ident))
}

/// Whether `node` says how the binding is nested and no node between the two does.
pub open spec fn is_nearest_with_context(
    tree: Seq<ElementView>,
    node: int,
    ident: int,
    arm_pat: int,
) -> bool {
    &&& is_on_the_way(tree, node, ident, arm_pat)
    &&& context_at(tree, node, ident) is Some
    &&& forall|between: int| #[trigger]
        is_above(tree, between, ident) && is_above(tree, node, between) ==> context_at(
            tree,
            between,
            ident,
        ) is None
}

/// Whether `above` is the node whose word the walk from `node` takes.
spec fn is_heard_from(
    tree: Seq<ElementView>,
    above: int,
    node: int,
    ident: int,
    arm_pat: int,
) -> bool {
    &&& is_within(tree, above, node)
    &&& context_at(tree, above, ident) is Some
    &&& context_from(tree, node, ident, arm_pat) == context_at(tree, above, ident)
    &&& forall|between: int| #[trigger]
        is_within(tree, between, node) && is_above(tree, above, between) ==> context_at(
            tree,
            between,
            ident,
        ) is None && between != arm_pat
}

proof fn lemma_context_from(tree: Seq<ElementView>, node: int, ident: int, arm_pat: int)
    ensures
        context_from(tree, node, ident, arm_pat) is Some ==> exists|above: int|
            is_heard_from(tree, above, node, ident, arm_pat),
        context_from(tree, node, ident, arm_pat) is None ==> forall|above: int| #[trigger]
            is_within(tree, above, node) && !(is_above(tree, above, arm_pat) && is_within(
                tree,
                arm_pat,
                node,
            )) ==> context_at(tree, above, ident) is None,
    decreases node,
{
    if context_at(tree, node, ident) is Some {
        assert forall|between: int| #[trigger]
            is_within(tree, between, node) && is_above(tree, node, between) implies context_at(
            tree,
            between,
            ident,
        ) is None && between != arm_pat by {
            lemma_within_is_after(tree, between, node);
            lemma_within_is_after(tree, node, between);
        }
        assert(is_heard_from(tree, node, node, ident, arm_pat));
    } else if node == arm_pat {
    } else {
        match tree[node].parent {
            Some(parent) if 0 <= parent < node => {
                lemma_context_from(tree, parent, ident, arm_pat);
                assert forall|above: int| #[trigger] is_within(tree, above, node) implies above
                    == node || is_within(tree, above, parent) by {}
                if context_from(tree, parent, ident, arm_pat) is Some {
                    let above = choose|above: int|
                        is_heard_from(tree, above, parent, ident, arm_pat);
                    assert(is_heard_from(tree, above, node, ident, arm_pat));
                } else {
                    assert(is_within(tree, arm_pat, node) == is_within(tree, arm_pat, parent));
                }
            },
            _ => {},
        }
    }
}

/// How a binding that is not the whole pattern is nested is what the nearest node above it says
/// that says anything, up to the pattern of the arm; it is left open just where none of these
/// says anything.
pub proof fn law_nearest_pattern_decides(tree: Seq<ElementView>, ident: int, arm_pat: int)
    requires
        is_tree(tree),
        0 <= ident < tree.len(),
        ident != arm_pat,
    ensures
        match replacement_context(tree, ident, arm_pat) {
            Some(context) => exists|node: int| #[trigger]
                is_nearest_with_context(tree, node, ident, arm_pat) && context_at(
                    tree,
                    node,
                    ident,
                ) == Some(context),
            None => forall|node: int| #[trigger]
                is_on_the_way(tree, node, ident, arm_pat) ==> context_at(tree, node, ident) is None,
        },
{
    assert(continues_tree(tree, ident));
    if let Some(parent) = tree[ident].parent {
        lemma_context_from(tree, parent, ident, arm_pat);
        assert forall|node: int| #[trigger] is_above(tree, node, ident) implies is_within(
            tree,
            node,
            parent,
        ) by {}
        assert(is_above(tree, arm_pat, ident) ==> is_within(tree, arm_pat, parent));
        if let Some(context) = context_from(tree, parent, ident, arm_pat) {
            let above = choose|above: int| is_heard_from(tree, above, parent, ident, arm_pat);
            lemma_within_is_after(tree, above, parent);
            assert(is_above(tree, above, ident));
            assert(is_nearest_with_context(tree, above, ident, arm_pat));
        } else {
            assert forall|node: int| #[trigger]
                is_on_the_way(tree, node, ident, arm_pat) implies context_at(tree, node, ident)
                is None by {
                assert(is_within(tree, node, parent));
                if is_within(tree, arm_pat, parent) {
                    lemma_within_is_after(tree, arm_pat, parent);
                    assert(is_above(tree, arm_pat, ident));
                }
            }
        }
    }
}

/// A binding is replaced directly just where it is the whole pattern of its arm, so that nothing
/// else of the pattern is lost; the new pattern is then the replacement itself.
pub proof fn law_direct_is_for_the_whole_pattern(
    tree: Seq<ElementView>,
    ident: int,
    arm_pat: int,
    replacement: PatView,
)
    requires
        is_tree(tree),
        0 <= ident < tree.len(),
    ensures
        replacement_context(tree, ident, arm_pat) == Some(ReplacementContextView::Direct) <==> ident
            == arm_pat,
        replaced_pattern(tree, arm_pat, replacement, ReplacementContextView::Direct) == replacement,
{
    if ident != arm_pat {
        law_nearest_pattern_decides(tree, ident, arm_pat);
        if let Some(context) = replacement_context(tree, ident, arm_pat) {
            let node = choose|node: int| #[trigger]
                is_nearest_with_context(tree, node, ident, arm_pat) && context_at(
                    tree,
                    node,
                    ident,
                ) == Some(context);
            assert(context_at(tree, node, ident) == Some(context));
        }
    }
}

/// A binding that is the whole pattern of its arm is split where the cursor is in it, it is of
/// an enum or of `bool` and there are patterns for it.
pub proof fn law_bare_binding_is_split(ctx: AssistContextView, arm: int, ident: int)
    requires
        0 <= arm < ctx.tree.len(),
        node_at_offset(ctx.tree, SyntaxKind::MatchArm, ctx.offset) == Some(arm),
        node_at_offset(ctx.tree, SyntaxKind::IdentPat, ctx.offset) == Some(ident),
        first_child(ctx.tree, arm, Class::Pat) == Some(ident),
        first_child(ctx.tree, arm, Class::Kind(SyntaxKind::MatchGuard)) is None,
        match ctx.tree[arm].parent {
            Some(arm_list) => ctx.tree[arm_list].kind is MatchArmList,
            None => false,
        },
        ctx.tree[ident].range.holds(ctx.offset),
        has_splittable_binding(ctx.sema, ident),
        patterns_for(ctx.sema, ident) is Some,
    ensures
        split_assist(ctx) is Some,
        split_at(ctx) matches Some(split) && split.pat == ident && split.arm_pat == ident
            && split.context is Direct,
{
    law_found_where_there_is_one(ctx.tree, SyntaxKind::MatchArm, ctx.offset);
    law_arm_has_its_number(ctx.tree, arm, ctx.tree[arm].parent.unwrap());
}

proof fn lemma_wrapping(tree: Seq<ElementView>, node: int, ident: int, inner: int, outer: int)
    requires
        is_within(tree, inner, node),
        is_within(tree, outer, inner),
        context_from(tree, node, ident, inner) is Some,
    ensures
        context_from(tree, node, ident, outer) == context_from(tree, node, ident, inner),
    decreases node,
{
    if context_at(tree, node, ident) is None {
        lemma_within_is_after(tree, inner, node);
        lemma_within_is_after(tree, outer, inner);
        let parent = tree[node].parent.unwrap();
        lemma_wrapping(tree, parent, ident, inner, outer);
    }
}

/// Further layers around a pattern do not change how a binding in it is nested: where a field of
/// the pattern or of one below it holds the binding, any pattern around it gives the same.
pub proof fn law_wrapping_changes_nothing(
    tree: Seq<ElementView>,
    ident: int,
    inner: int,
    outer: int,
)
    requires
        is_within(tree, inner, ident),
        is_within(tree, outer, inner),
        match replacement_context(tree, ident, inner) {
            Some(context) => context is TupleStruct || context is Record,
            None => false,
        },
    ensures
        replacement_context(tree, ident, outer) == replacement_context(tree, ident, inner),
{
    lemma_within_is_after(tree, inner, ident);
    lemma_within_is_after(tree, outer, inner);
    lemma_wrapping(tree, tree[ident].parent.unwrap(), ident, inner, outer);
}

/// A binding that is itself a field of the arm's own tuple struct pattern is nested as that
/// pattern says.
pub proof fn law_own_field_is_found(tree: Seq<ElementView>, arm_pat: int, ident: int)
    requires
        is_tree(tree),
        tuple_struct_context(tree, arm_pat, ident) is Some,
        children(tree, arm_pat, Class::Pat).contains(ident),
    ensures
        replacement_context(tree, ident, arm_pat) == tuple_struct_context(tree, arm_pat, ident),
{
    law_children_are_all_in_order(tree, arm_pat, Class::Pat);
    assert(is_child(tree, arm_pat, Class::Pat, ident));
    assert(continues_tree(tree, ident));
}

/// A binding in a field of the arm's own tuple struct pattern: the new pattern takes the place
/// of that field, and the path and all other fields stay.
pub proof fn law_other_fields_stay(
    tree: Seq<ElementView>,
    arm_pat: int,
    ident: int,
    replacement: PatView,
)
    requires
        tuple_struct_context(tree, arm_pat, ident) is Some,
    ensures
        ({
            let context = tuple_struct_context(tree, arm_pat, ident).unwrap();
            let path = first_child(tree, arm_pat, Class::Kind(SyntaxKind::Path)).unwrap();
            let fields = children(tree, arm_pat, Class::Pat);
            replaced_pattern(tree, arm_pat, replacement, context) == PatView::TupleStruct {
                path: text_of(tree, path),
                fields: fields.map_values(|field: int| text_of(tree, field)).update(
                    first_holding(tree, fields, ident).unwrap(),
                    replacement.text(),
                ),
            }
        }),
{
    let context = tuple_struct_context(tree, arm_pat, ident).unwrap();
    let fields = children(tree, arm_pat, Class::Pat);
    let at = first_holding(tree, fields, ident).unwrap();
    law_field_holds_the_binding(tree, arm_pat, ident);
    let kept = fields.map_values(|field: int| text_of(tree, field)).update(at, replacement.text());
    match replaced_pattern(tree, arm_pat, replacement, context) {
        PatView::TupleStruct { path, fields } => {
            assert(fields =~= kept);
        },
        _ => {},
    }
}

/// A binding in a tuple struct pattern with another path than the arm's own pattern: that
/// pattern takes the place of the arm's, with the new pattern in its field and wildcards in all
/// others.
pub proof fn law_inner_pattern_takes_the_place(
    tree: Seq<ElementView>,
    arm_pat: int,
    outer_path: int,
    field_index: int,
    total_fields: int,
    replacement: PatView,
)
    requires
        0 <= field_index < total_fields,
        !has_path(tree, arm_pat, outer_path),
    ensures
        replaced_pattern(
            tree,
            arm_pat,
            replacement,
            ReplacementContextView::TupleStruct { outer_path, field_index, total_fields },
        ) == (PatView::TupleStruct {
            path: text_of(tree, outer_path),
            fields: Seq::new(total_fields as nat, |i: int| wildcard()).update(
                field_index,
                replacement.text(),
            ),
        }),
{
    let made = replaced_pattern(
        tree,
        arm_pat,
        replacement,
        ReplacementContextView::TupleStruct { outer_path, field_index, total_fields },
    );
    let wild = Seq::new(total_fields as nat, |i: int| wildcard()).update(
        field_index,
        replacement.text(),
    );
    match made {
        PatView::TupleStruct { path, fields } => {
            assert(fields =~= wild);
        },
        _ => {},
    }
}

proof fn lemma_digits_differ(a: nat, b: nat)
    requires
        a < 10,
        b < 10,
        digit(a) == digit(b),
    ensures
        a == b,
{
    let digits = seq!['0', '1', '2', '3', '4', '5', '6', '7', '8', '9'];
    assert(forall|i: int, j: int| 0 <= i < j < 10 ==> digits[i] != digits[j]);
}

proof fn lemma_decimals_differ(a: nat, b: nat)
    requires
        decimal(a) == decimal(b),
    ensures
        a == b,
    decreases a,
{
    lemma_decimal_len(a);
    lemma_decimal_len(b);
    assert(decimal(a).last() == digit(a % 10));
    assert(decimal(b).last() == digit(b % 10));
    lemma_digits_differ(a % 10, b % 10);
    if a >= 10 && b >= 10 {
        assert(decimal(a).drop_last() =~= decimal(a / 10));
        assert(decimal(b).drop_last() =~= decimal(b / 10));
        lemma_decimals_differ(a / 10, b / 10);
    }
}

proof fn lemma_decimal_len(n: nat)
    ensures
        decimal(n).len() >= 1,
        n >= 10 ==> decimal(n).len() >= 2,
    decreases n,
{
    if n >= 10 {
        lemma_decimal_len(n / 10);
    }
}

/// Where the types of two fields suggest no name, the two bindings have different names.
pub proof fn law_fallback_names_differ(i: int, j: int)
    requires
        0 <= i < j,
    ensures
        binding_name(None, i) != binding_name(None, j),
{
    if binding_name(None, i) == binding_name(None, j) {
        let a = decimal(i as nat);
        let b = decimal(j as nat);
        assert((seq!['_'] + a).skip(1) =~= a);
        assert((seq!['_'] + b).skip(1) =~= b);
        lemma_decimals_differ(i as nat, j as nat);
    }
}

/// The names that are bound in one tuple struct pattern differ, where the suggested ones do and
/// none of them is the name that another field gets for want of one.
pub proof fn law_names_of_a_pattern_differ(names: Seq<Option<Seq<char>>>, i: int, j: int)
    requires
        0 <= i < j < names.len(),
        forall|k: int, l: int|
            0 <= k < l < names.len() && (#[trigger] names[k]) is Some ==> names[k]
                != #[trigger] names[l],
        forall|k: int, l: int|
            0 <= k < names.len() && 0 <= l < names.len() && (#[trigger] names[l]) is None
                ==> #[trigger] names[k] != Some(binding_name(None, l)),
    ensures
        binding_name(names[i], i) != binding_name(names[j], j),
{
    if names[i] is None && names[j] is None {
        law_fallback_names_differ(i, j);
    }
    assert(names[i] is Some && names[j] is Some ==> names[i] != names[j]);
}

/// Indentation lengthens whitespace that ends a line and leaves all else as it is.
pub proof fn law_indentation_moves_lines_only(text: Seq<PieceView>, level: nat)
    ensures
        indented(text, level).len() == text.len(),
        forall|i: int|
            0 <= i < text.len() ==> {
                let moved = #[trigger] indented(text, level)[i];
                if text[i].breaks_line() {
                    moved.whitespace && moved.text == text[i].text + spaces(4 * level)
                } else {
                    moved == text[i]
                }
            },
{
}

/// At level zero a text stands as it is made.
pub proof fn law_no_indentation_changes_nothing(text: Seq<PieceView>)
    ensures
        indented(text, 0) == text,
{
    assert forall|i: int| 0 <= i < text.len() implies #[trigger] indented(text, 0)[i]
        == text[i] by {
        assert(text[i].text + spaces(0) =~= text[i].text);
    }
    assert(indented(text, 0) =~= text);
}

/// To indent a text twice is to indent it once, by both levels together.
pub proof fn law_indentations_add_up(text: Seq<PieceView>, first: nat, second: nat)
    ensures
        indented(indented(text, first), second) == indented(text, first + second),
{
    let once = indented(text, first);
    let twice = indented(once, second);
    let both = indented(text, first + second);
    assert forall|i: int| 0 <= i < text.len() implies #[trigger] twice[i] == both[i] by {
        if text[i].breaks_line() {
            let at = choose|at: int| 0 <= at < text[i].text.len() && text[i].text[at] == '\n';
            assert(once[i].text[at] == '\n');
            assert(once[i].breaks_line());
            assert(spaces(4 * first) + spaces(4 * second) =~= spaces(4 * (first + second)));
            assert(twice[i].text =~= both[i].text);
        }
    }
    assert(twice =~= both);
}

/// Where in the binding the cursor is makes no difference: what is offered depends on the arm
/// and the binding that are found at the cursor.
pub proof fn law_same_binding_same_split(ctx: AssistContextView, other: AssistContextView)
    requires
        other.tree == ctx.tree,
        other.sema == ctx.sema,
        other.expr_fill_default == ctx.expr_fill_default,
        node_at_offset(ctx.tree, SyntaxKind::MatchArm, ctx.offset) == node_at_offset(
            ctx.tree,
            SyntaxKind::MatchArm,
            other.offset,
        ),
        node_at_offset(ctx.tree, SyntaxKind::IdentPat, ctx.offset) == node_at_offset(
            ctx.tree,
            SyntaxKind::IdentPat,
            other.offset,
        ),
        match node_at_offset(ctx.tree, SyntaxKind::MatchArm, ctx.offset) {
            Some(arm) => match first_child(ctx.tree, arm, Class::Pat) {
                Some(arm_pat) => ctx.tree[arm_pat].range.holds(ctx.offset)
                    == ctx.tree[arm_pat].range.holds(other.offset),
                None => true,
            },
            None => true,
        },
    ensures
        split_assist(ctx) == split_assist(other),
{
    if let (Some(split), Some(same)) = (split_at(ctx), split_at(other)) {
        assert(split == same);
        assert(new_arms(ctx, split) =~= new_arms(other, same));
        assert(old_arms(ctx, split) =~= old_arms(other, same));
    }
}

} // verus!
