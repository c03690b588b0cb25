//! Which arm of a match a value reaches, before and after a split.

use crate::arms::{spliced, ArmView};
use crate::expand::expanded_patterns;
use crate::laws::pattern::law_type_expands_to_all_its_patterns;
use crate::laws::split::{is_known_to_match, law_split_has_all_patterns_of_the_type};
use crate::laws::{
    law_children_are_all_in_order, law_field_holds_the_binding, law_found_where_there_is_one,
    law_own_field_is_found, law_split_is_of_the_arm_at_the_cursor,
};
use crate::matching::{
    fits_anything, has_named_fields, is_of_type, is_own_named_field, is_rest, is_told_apart,
    law_bare_split_matches_the_same_values, law_record_split_matches_the_same_values,
    law_split_matches_the_same_values, named_split_patterns, named_value_bound, pat_matches,
    reads_patterns, record_fields, record_pattern, split_patterns, tuple_struct_pattern,
    value_bound, Value,
};
use crate::pat::PatView;
use crate::replace::{
    context_at, context_from, first_holding, record_context, replaced_pattern, replacement_context,
    tuple_struct_context, ReplacementContextView,
};
use crate::semantics::TypeView;
use crate::split::{all_arms, new_arms, old_arms, split_at, AssistContextView};
use crate::text::PieceView;
use crate::tree::{
    children, continues_tree, first_child, is_child, is_tree, text_of, Class, ElementView,
    SyntaxKind,
};
use vstd::prelude::*;

verus! {

/// The number of the first arm that takes the value, by a predicate that says which arms do.
pub open spec fn first_taking(arms: Seq<ArmView>, takes: spec_fn(ArmView) -> bool) -> Option<int>
    decreases arms.len(),
{
    if arms.len() == 0 {
        None
    } else {
        match first_taking(arms.drop_last(), takes) {
            Some(i) => Some(i),
            None => if takes(arms.last()) {
                Some(arms.len() - 1)
            } else {
                None
            },
        }
    }
}

/// Whether some arm takes the value.
pub open spec fn is_taken(arms: Seq<ArmView>, takes: spec_fn(ArmView) -> bool) -> bool {
    exists|i: int| 0 <= i < arms.len() && takes(#[trigger] arms[i])
}

/// The first arm that takes a value takes it, and none before it does; there is one just where
/// some arm takes the value.
pub proof fn law_first_taking_is_first(arms: Seq<ArmView>, takes: spec_fn(ArmView) -> bool)
    ensures
        is_taken(arms, takes) <==> first_taking(arms, takes) is Some,
        first_taking(arms, takes) matches Some(first) ==> {
            &&& 0 <= first < arms.len()
            &&& takes(arms[first])
            &&& forall|i: int| 0 <= i < first ==> !takes(#[trigger] arms[i])
        },
    decreases arms.len(),
{
    if arms.len() > 0 {
        let before = arms.drop_last();
        law_first_taking_is_first(before, takes);
        assert forall|i: int| 0 <= i < before.len() implies #[trigger] arms[i] == before[i] by {}
        if let Some(first) = first_taking(arms, takes) {
            if first_taking(before, takes) is None {
                assert forall|i: int| 0 <= i < before.len() implies !takes(#[trigger] arms[i]) by {
                    assert(!takes(before[i]));
                }
            }
            assert(takes(arms[first]));
        } else {
            assert forall|i: int| 0 <= i < arms.len() implies !takes(#[trigger] arms[i]) by {
                if i < before.len() {
                    assert(!takes(before[i]));
                }
            }
        }
    }
}

/// The number that the first arm to take a value has after a splice, by what it was before: an
/// arm that stays keeps the value; a value that the arm at `at` took goes to the first of the
/// new arms that takes it.
pub open spec fn moved(first: Option<int>, at: int, new: Seq<ArmView>, takes: spec_fn(
    ArmView,
) -> bool) -> Option<int> {
    match first {
        Some(i) => if i < at {
            Some(i)
        } else if i == at {
            Some(at + first_taking(new, takes).unwrap())
        } else {
            Some(i - 1 + new.len())
        },
        None => None,
    }
}

/// Where an arm takes a value just where one of the new arms in its place does, the match as a
/// whole takes the value after the splice just where it did before, and the value reaches the
/// same other arm, or one of the new arms where it reached the one that they stand for.
pub proof fn law_splice_reaches_the_same_arm(
    arms: Seq<ArmView>,
    at: int,
    new: Seq<ArmView>,
    takes: spec_fn(ArmView) -> bool,
)
    requires
        0 <= at < arms.len(),
        takes(arms[at]) <==> is_taken(new, takes),
    ensures
        is_taken(spliced(arms, at, new), takes) <==> is_taken(arms, takes),
        first_taking(spliced(arms, at, new), takes) == moved(
            first_taking(arms, takes),
            at,
            new,
            takes,
        ),
{
    let all = spliced(arms, at, new);
    law_first_taking_is_first(arms, takes);
    law_first_taking_is_first(new, takes);
    law_first_taking_is_first(all, takes);
    assert forall|i: int| 0 <= i < at implies all[i] == #[trigger] arms[i] by {}
    assert forall|i: int| at < i < arms.len() implies #[trigger] arms[i] == all[i - 1
        + new.len()] by {}
    assert forall|i: int| 0 <= i < new.len() implies #[trigger] new[i] == all[at + i] by {}
    let target = moved(first_taking(arms, takes), at, new, takes);
    if let Some(there) = target {
        assert(0 <= there < all.len() && takes(all[there]));
        assert forall|i: int| 0 <= i < there implies !takes(#[trigger] all[i]) by {
            if i < at {
                assert(all[i] == arms[i]);
            } else if i < at + new.len() {
                assert(all[i] == new[i - at]);
            } else {
                assert(all[i] == arms[i + 1 - new.len()]);
            }
        }
    } else {
        assert forall|i: int| 0 <= i < all.len() implies !takes(#[trigger] all[i]) by {
            if i < at {
                assert(all[i] == arms[i]);
            } else if i < at + new.len() {
                assert(all[i] == new[i - at]);
            } else {
                assert(all[i] == arms[i + 1 - new.len()]);
            }
        }
    }
}

/// For any predicate on arms that holds of the arm that is split just where it holds of one of
/// the new arms: some arm satisfies it after the split just where some arm did before, and the
/// first that does is the same other arm, or one of the new arms where it was the one that is
/// split.
pub proof fn law_split_reaches_the_same_arm(
    ctx: AssistContextView,
    takes: spec_fn(ArmView) -> bool,
)
    requires
        split_at(ctx) is Some,
        ({
            let split = split_at(ctx).unwrap();
            takes(old_arms(ctx, split)[split.arm_index]) <==> is_taken(new_arms(ctx, split), takes)
        }),
    ensures
        ({
            let split = split_at(ctx).unwrap();
            &&& is_taken(all_arms(ctx, split), takes) <==> is_taken(old_arms(ctx, split), takes)
            &&& first_taking(all_arms(ctx, split), takes) == moved(
                first_taking(old_arms(ctx, split), takes),
                split.arm_index,
                new_arms(ctx, split),
                takes,
            )
        }),
{
    let split = split_at(ctx).unwrap();
    law_split_is_of_the_arm_at_the_cursor(ctx);
    law_splice_reaches_the_same_arm(
        old_arms(ctx, split),
        split.arm_index,
        new_arms(ctx, split),
        takes,
    );
}

/// A binding that is itself the pattern of a field of the arm's own record pattern is nested as
/// that pattern says.
pub proof fn law_own_named_field_is_found(
    tree: Seq<ElementView>,
    arm_pat: int,
    ident: int,
    at: int,
)
    requires
        is_tree(tree),
        record_context(tree, arm_pat, ident) is Some,
        0 <= at < record_fields(tree, arm_pat).len(),
        first_child(tree, record_fields(tree, arm_pat)[at], Class::Pat) == Some(ident),
    ensures
        replacement_context(tree, ident, arm_pat) == record_context(tree, arm_pat, ident),
{
    let list_class = Class::Kind(SyntaxKind::RecordPatFieldList);
    let field_class = Class::Kind(SyntaxKind::RecordPatField);
    let list = first_child(tree, arm_pat, list_class).unwrap();
    let field = record_fields(tree, arm_pat)[at];
    law_children_are_all_in_order(tree, arm_pat, list_class);
    law_children_are_all_in_order(tree, list, field_class);
    law_children_are_all_in_order(tree, field, Class::Pat);
    assert(children(tree, arm_pat, list_class).contains(list));
    assert(children(tree, list, field_class).contains(field));
    assert(children(tree, field, Class::Pat).contains(ident));
    assert(is_child(tree, arm_pat, list_class, list));
    assert(is_child(tree, list, field_class, field));
    assert(is_child(tree, field, Class::Pat, ident));
    assert(continues_tree(tree, list));
    assert(continues_tree(tree, field));
    assert(continues_tree(tree, ident));
    assert(context_at(tree, field, ident) is None);
    assert(context_at(tree, list, ident) is None);
    assert(context_from(tree, field, ident, arm_pat) == context_from(tree, list, ident, arm_pat));
    assert(context_from(tree, list, ident, arm_pat) == context_from(tree, arm_pat, ident, arm_pat));
}

/// Whether the pattern of an arm matches the value: a binding matches anything, and other
/// patterns are read as their path and their fields.
pub open spec fn arm_pat_matches<V>(
    tree: Seq<ElementView>,
    arm_pat: int,
    value: Value<V>,
    fits: spec_fn(Seq<PieceView>, V) -> bool,
) -> bool {
    match tree[arm_pat].kind {
        SyntaxKind::IdentPat => true,
        SyntaxKind::TupleStructPat => pat_matches(tuple_struct_pattern(tree, arm_pat), value, fits),
        SyntaxKind::RecordPat => pat_matches(record_pattern(tree, arm_pat), value, fits),
        _ => false,
    }
}

/// Whether the binding is itself a field of the arm's own tuple struct pattern and matches
/// anything, and what it binds in the value is of the type.
pub open spec fn binds_own_field<V>(
    tree: Seq<ElementView>,
    arm_pat: int,
    ident: int,
    ty: TypeView,
    value: Value<V>,
    fits: spec_fn(Seq<PieceView>, V) -> bool,
    open: spec_fn(V) -> Value<V>,
) -> bool {
    let fields = children(tree, arm_pat, Class::Pat);
    &&& tuple_struct_context(tree, arm_pat, ident) is Some
    &&& fields[first_holding(tree, fields, ident).unwrap()] == ident
    &&& !is_rest(text_of(tree, ident))
    &&& fits_anything(text_of(tree, ident), fits)
    &&& pat_matches(tuple_struct_pattern(tree, arm_pat), value, fits) ==> is_of_type(
        ty,
        open(value_bound(tree, arm_pat, ident, value)),
    )
}

/// Whether the binding is itself the pattern of a field of the arm's own record pattern, whose
/// fields match anything, and what it binds in the value is of the type.
pub open spec fn binds_own_named_field<V>(
    tree: Seq<ElementView>,
    arm_pat: int,
    ident: int,
    ty: TypeView,
    value: Value<V>,
    fits: spec_fn(Seq<PieceView>, V) -> bool,
    open: spec_fn(V) -> Value<V>,
    at: int,
) -> bool {
    &&& is_own_named_field(tree, arm_pat, ident, at, fits)
    &&& has_named_fields(record_pattern(tree, arm_pat), value)
    &&& pat_matches(record_pattern(tree, arm_pat), value, fits) ==> is_of_type(
        ty,
        open(named_value_bound(tree, arm_pat, at, value)),
    )
}

/// Whether the binding is the whole pattern of the arm or one of its own fields, such that what
/// it binds in the value is of the type.
pub open spec fn binds_whole_or_own_field<V>(
    tree: Seq<ElementView>,
    arm_pat: int,
    ident: int,
    ty: TypeView,
    value: Value<V>,
    fits: spec_fn(Seq<PieceView>, V) -> bool,
    open: spec_fn(V) -> Value<V>,
) -> bool {
    ||| arm_pat == ident && is_of_type(ty, value)
    ||| arm_pat != ident && binds_own_field(tree, arm_pat, ident, ty, value, fits, open)
    ||| arm_pat != ident && exists|at: int| #[trigger]
        binds_own_named_field(tree, arm_pat, ident, ty, value, fits, open, at)
}

/// After a split by the patterns of a type the match takes a value just where it did before, and
/// the value reaches the same other arm, or one of the new arms where it reached the one that is
/// split; no two of the new arms take it. This is for a binding that is the whole pattern of the
/// arm or one of its own fields.
pub proof fn law_split_by_patterns_keeps_the_match<V>(
    ctx: AssistContextView,
    ty: TypeView,
    value: Value<V>,
    fits: spec_fn(Seq<PieceView>, V) -> bool,
    open: spec_fn(V) -> Value<V>,
    takes: spec_fn(ArmView) -> bool,
)
    requires
        is_tree(ctx.tree),
        split_at(ctx) is Some,
        expanded_patterns(ty) == Some(split_at(ctx).unwrap().patterns),
        is_told_apart(ty, fits),
        reads_patterns(split_at(ctx).unwrap().patterns, fits, open),
        binds_whole_or_own_field(
            ctx.tree,
            split_at(ctx).unwrap().arm_pat,
            split_at(ctx).unwrap().pat,
            ty,
            value,
            fits,
            open,
        ),
        // An arm takes the value where its pattern matches; of the other arms nothing is said.
        ({
            let split = split_at(ctx).unwrap();
            &&& takes(old_arms(ctx, split)[split.arm_index]) == arm_pat_matches(
                ctx.tree,
                split.arm_pat,
                value,
                fits,
            )
            &&& forall|i: int|
                0 <= i < split.patterns.len() ==> takes(#[trigger] new_arms(ctx, split)[i])
                    == pat_matches(
                    replaced_pattern(ctx.tree, split.arm_pat, split.patterns[i], split.context),
                    value,
                    fits,
                )
        }),
    ensures
        ({
            let split = split_at(ctx).unwrap();
            let new = new_arms(ctx, split);
            &&& is_taken(all_arms(ctx, split), takes) <==> is_taken(old_arms(ctx, split), takes)
            &&& first_taking(all_arms(ctx, split), takes) == moved(
                first_taking(old_arms(ctx, split), takes),
                split.arm_index,
                new,
                takes,
            )
            &&& forall|i: int, j: int|
                0 <= i < j < new.len() ==> !(takes(#[trigger] new[i]) && takes(#[trigger] new[j]))
        }),
{
    let split = split_at(ctx).unwrap();
    let tree = ctx.tree;
    let arm_pat = split.arm_pat;
    let ident = split.pat;
    let new = new_arms(ctx, split);
    let replaced = split.patterns.map_values(
        |pat: PatView| replaced_pattern(tree, arm_pat, pat, split.context),
    );
    law_split_is_of_the_arm_at_the_cursor(ctx);
    law_found_where_there_is_one(tree, SyntaxKind::IdentPat, ctx.offset);
    assert(replacement_context(tree, ident, arm_pat) == Some(split.context));
    if arm_pat == ident {
        law_bare_split_matches_the_same_values(tree, ident, ty, value, fits);
        assert(replaced =~= split.patterns.map_values(
            |pat: PatView| replaced_pattern(tree, ident, pat, ReplacementContextView::Direct),
        ));
    } else if binds_own_field(tree, arm_pat, ident, ty, value, fits, open) {
        law_field_holds_the_binding(tree, arm_pat, ident);
        law_own_field_is_found(tree, arm_pat, ident);
        law_split_matches_the_same_values(tree, arm_pat, ident, ty, value, fits, open);
        assert(replaced =~= split_patterns(tree, arm_pat, ident, split.patterns));
    } else {
        let at = choose|at: int| #[trigger]
            binds_own_named_field(tree, arm_pat, ident, ty, value, fits, open, at);
        law_own_named_field_is_found(tree, arm_pat, ident, at);
        law_record_split_matches_the_same_values(
            tree,
            arm_pat,
            ident,
            at,
            ty,
            value,
            fits,
            open,
        );
        assert(replaced =~= named_split_patterns(tree, arm_pat, ident, split.patterns));
    }
    assert forall|i: int| 0 <= i < new.len() implies takes(#[trigger] new[i]) == pat_matches(
        replaced[i],
        value,
        fits,
    ) by {}
    if arm_pat_matches(tree, arm_pat, value, fits) {
        let i = choose|i: int|
            0 <= i < replaced.len() && pat_matches(#[trigger] replaced[i], value, fits);
        assert(takes(new[i]));
    }
    if is_taken(new, takes) {
        let i = choose|i: int| 0 <= i < new.len() && takes(#[trigger] new[i]);
        assert(pat_matches(replaced[i], value, fits));
    }
    law_split_reaches_the_same_arm(ctx, takes);
    assert forall|i: int, j: int| 0 <= i < j < new.len() implies !(takes(#[trigger] new[i])
        && takes(#[trigger] new[j])) by {
        assert(!(pat_matches(replaced[i], value, fits) && pat_matches(replaced[j], value, fits)));
    }
}

/// After a split the match takes a value just where it did before, so that it is exhaustive just
/// where it was; the value reaches the same other arm, or one of the new arms where it reached
/// the one that is split, and no two of the new arms take it. This is for a binding that is the
/// whole pattern of the arm or one of its own fields, and the type is the one that the binding is
/// known to match.
pub proof fn law_split_keeps_the_match<V>(
    ctx: AssistContextView,
    ty: TypeView,
    value: Value<V>,
    fits: spec_fn(Seq<PieceView>, V) -> bool,
    open: spec_fn(V) -> Value<V>,
    takes: spec_fn(ArmView) -> bool,
)
    requires
        is_tree(ctx.tree),
        split_at(ctx) is Some,
        match ctx.sema.binding(split_at(ctx).unwrap().pat) {
            Some(facts) => facts.pat_type == Some(ty),
            None => false,
        },
        is_told_apart(ty, fits),
        reads_patterns(split_at(ctx).unwrap().patterns, fits, open),
        binds_whole_or_own_field(
            ctx.tree,
            split_at(ctx).unwrap().arm_pat,
            split_at(ctx).unwrap().pat,
            ty,
            value,
            fits,
            open,
        ),
        // An arm takes the value where its pattern matches; of the other arms nothing is said.
        ({
            let split = split_at(ctx).unwrap();
            &&& takes(old_arms(ctx, split)[split.arm_index]) == arm_pat_matches(
                ctx.tree,
                split.arm_pat,
                value,
                fits,
            )
            &&& forall|i: int|
                0 <= i < split.patterns.len() ==> takes(#[trigger] new_arms(ctx, split)[i])
                    == pat_matches(
                    replaced_pattern(ctx.tree, split.arm_pat, split.patterns[i], split.context),
                    value,
                    fits,
                )
        }),
    ensures
        ({
            let split = split_at(ctx).unwrap();
            let new = new_arms(ctx, split);
            &&& is_taken(all_arms(ctx, split), takes) <==> is_taken(old_arms(ctx, split), takes)
            &&& first_taking(all_arms(ctx, split), takes) == moved(
                first_taking(old_arms(ctx, split), takes),
                split.arm_index,
                new,
                takes,
            )
            &&& forall|i: int, j: int|
                0 <= i < j < new.len() ==> !(takes(#[trigger] new[i]) && takes(#[trigger] new[j]))
        }),
{
    law_split_has_all_patterns_of_the_type(ctx);
    assert(is_known_to_match(ctx.sema, split_at(ctx).unwrap().pat, ty));
    law_type_expands_to_all_its_patterns(ty);
    law_split_by_patterns_keeps_the_match(ctx, ty, value, fits, open, takes);
}

} // verus!
