//! What holds of a split: where there is one, which patterns it has, and what the file reads
//! after it.

use crate::arms::{
    arm_lines, arm_list_text, existing_arm, indented, indented_piece, new_arm, ArmView,
};
use crate::laws::pattern::{
    are_patterns_of, has_place, is_field_with, is_named_field_with, is_own_path, is_said_by,
    law_every_record_says, law_every_tuple_struct_says, law_node_says_what_its_fields_say,
    law_replacement_stands_in_the_new_pattern, law_type_expands_to_all_its_patterns,
};
use crate::laws::text::{
    gap, has_line_break, law_arms_are_written_line_by_line, law_existing_arm_is_written,
    law_lines_move_to_the_right, law_new_arm_is_written, law_pieces_are_read_in_order,
    law_texts_move_together, stands_in, word,
};
use crate::laws::tree::{
    are_children, are_tokens_of, is_made_of, law_children_are_all_of_the_class,
    law_shortest_is_found,
};
use crate::laws::{
    is_nearest_with_context, is_on_the_way, law_arm_has_its_number, law_field_holds_the_binding,
    law_nearest_pattern_decides, law_split_is_of_the_arm_at_the_cursor,
};
use crate::matching::{is_of_type, is_told_apart, law_expansion_is_complete, pat_matches, Value};
use crate::replace::{context_at, replaced_pattern, replacement_context};
use crate::semantics::{
    first_binding, first_place, BindingFactsView, Place, SemanticsView, TypeView,
};
use crate::split::{
    all_arms, arms_of, new_arms, old_arms, pattern_to_split, split_assist, split_at, split_edit,
    AssistContextView, AssistKind, SplitView,
};
use crate::text::{chars, spaces, PieceView};
use crate::tree::{first_child, is_tree, node_at_offset, Class, ElementView, SyntaxKind};
use vstd::prelude::*;

verus! {

proof fn lemma_first_binding(bindings: Seq<BindingFactsView>, pat: int)
    ensures
        match first_binding(bindings, pat) {
            Some(facts) => exists|i: int|
                0 <= i < bindings.len() && #[trigger] bindings[i] == facts && facts.pat == pat
                    && forall|j: int| 0 <= j < i ==> (#[trigger] bindings[j]).pat != pat,
            None => forall|j: int| 0 <= j < bindings.len() ==> (#[trigger] bindings[j]).pat != pat,
        },
    decreases bindings.len(),
{
    if bindings.len() > 0 {
        let before = bindings.drop_last();
        lemma_first_binding(before, pat);
        assert forall|j: int| 0 <= j < before.len() implies before[j]
            == #[trigger] bindings[j] by {}
        match first_binding(before, pat) {
            Some(facts) => {
                let i = choose|i: int|
                    0 <= i < before.len() && #[trigger] before[i] == facts && facts.pat == pat
                        && forall|j: int| 0 <= j < i ==> (#[trigger] before[j]).pat != pat;
                assert(bindings[i] == facts);
            },
            None => {
                let last = bindings.len() - 1;
                assert(bindings[last] == bindings.last());
            },
        }
    }
}

proof fn lemma_first_place(places: Seq<Place>, arm_list: int)
    ensures
        match first_place(places, arm_list) {
            Some(place) => exists|i: int|
                0 <= i < places.len() && #[trigger] places[i] == place && place.arm_list
                    == arm_list && forall|j: int|
                    0 <= j < i ==> (#[trigger] places[j]).arm_list != arm_list,
            None => forall|j: int|
                0 <= j < places.len() ==> (#[trigger] places[j]).arm_list != arm_list,
        },
    decreases places.len(),
{
    if places.len() > 0 {
        let before = places.drop_last();
        lemma_first_place(before, arm_list);
        assert forall|j: int| 0 <= j < before.len() implies before[j] == #[trigger] places[j] by {}
        match first_place(before, arm_list) {
            Some(place) => {
                let i = choose|i: int|
                    0 <= i < before.len() && #[trigger] before[i] == place && place.arm_list
                        == arm_list && forall|j: int|
                        0 <= j < i ==> (#[trigger] before[j]).arm_list != arm_list;
                assert(places[i] == place);
            },
            None => {
                let last = places.len() - 1;
                assert(places[last] == places.last());
            },
        }
    }
}

/// What is known of a pattern or of a list of arms is what the first entry for it says; nothing
/// is known just where there is no entry.
pub proof fn law_first_entry_counts(sema: SemanticsView, pat: int, arm_list: int)
    ensures
        match sema.binding(pat) {
            Some(facts) => exists|i: int|
                0 <= i < sema.bindings.len() && #[trigger] sema.bindings[i] == facts && facts.pat
                    == pat && forall|j: int|
                    0 <= j < i ==> (#[trigger] sema.bindings[j]).pat != pat,
            None => forall|j: int|
                0 <= j < sema.bindings.len() ==> (#[trigger] sema.bindings[j]).pat != pat,
        },
        match sema.place(arm_list) {
            Some(place) => exists|i: int|
                0 <= i < sema.places.len() && #[trigger] sema.places[i] == place && place.arm_list
                    == arm_list && forall|j: int|
                    0 <= j < i ==> (#[trigger] sema.places[j]).arm_list != arm_list,
            None => forall|j: int|
                0 <= j < sema.places.len() ==> (#[trigger] sema.places[j]).arm_list != arm_list,
        },
{
    lemma_first_binding(sema.bindings, pat);
    lemma_first_place(sema.places, arm_list);
}

/// Whether the identifier pattern is known to bind an enum or a `bool`.
pub open spec fn binds_enum_or_bool(sema: SemanticsView, pat: int) -> bool {
    match sema.binding(pat) {
        Some(facts) => match facts.binding_type {
            Some(TypeView::Enum(_)) => true,
            Some(TypeView::Bool) => true,
            Some(TypeView::Other) => false,
            None => false,
        },
        None => false,
    }
}

/// Whether the identifier pattern is at the cursor, which is in the pattern of the arm and not
/// at its end, and is known to bind an enum or a `bool`.
pub open spec fn is_binding_at_cursor(ctx: AssistContextView, arm_pat: int, pat: int) -> bool {
    &&& node_at_offset(ctx.tree, SyntaxKind::IdentPat, ctx.offset) == Some(pat)
    &&& ctx.tree[arm_pat].range.start <= ctx.offset
    &&& ctx.offset < ctx.tree[arm_pat].range.end
    &&& binds_enum_or_bool(ctx.sema, pat)
}

/// The pattern that is to be split is the binding at the cursor, nested as the patterns above it
/// say; there is one just where there is such a binding and they say how it is nested.
pub proof fn law_pattern_to_split_is_at_the_cursor(ctx: AssistContextView, arm_pat: int)
    ensures
        match pattern_to_split(ctx, arm_pat) {
            Some((pat, context)) => is_binding_at_cursor(ctx, arm_pat, pat) && replacement_context(
                ctx.tree,
                pat,
                arm_pat,
            ) == Some(context),
            None => forall|pat: int| #[trigger]
                is_binding_at_cursor(ctx, arm_pat, pat) ==> replacement_context(
                    ctx.tree,
                    pat,
                    arm_pat,
                ) is None,
        },
{
}

/// Whether the identifier pattern is known to stand in a module and to match this type.
pub open spec fn is_known_to_match(sema: SemanticsView, pat: int, ty: TypeView) -> bool {
    match sema.binding(pat) {
        Some(facts) => facts.in_module && facts.pat_type == Some(ty),
        None => false,
    }
}

/// Whether the type is `bool` or an enum with variants, all of which can be named.
pub open spec fn has_patterns(ty: TypeView) -> bool {
    match ty {
        TypeView::Enum(variants) => variants.len() > 0 && forall|i: int|
            0 <= i < variants.len() ==> (#[trigger] variants[i]).path is Some,
        TypeView::Bool => true,
        TypeView::Other => false,
    }
}

/// Whether the arm at the cursor is one of a list, has the pattern and no guard.
pub open spec fn is_arm_at_cursor(
    ctx: AssistContextView,
    arm: int,
    arm_list: int,
    arm_pat: int,
) -> bool {
    &&& node_at_offset(ctx.tree, SyntaxKind::MatchArm, ctx.offset) == Some(arm)
    &&& ctx.tree[arm].parent == Some(arm_list)
    &&& ctx.tree[arm_list].kind == SyntaxKind::MatchArmList
    &&& first_child(ctx.tree, arm, Class::Pat) == Some(arm_pat)
    &&& first_child(ctx.tree, arm, Class::Kind(SyntaxKind::MatchGuard)) is None
}

/// An arm at the cursor without a guard is split where the binding at the cursor is of an enum
/// or of `bool`, its type has patterns and it is said how the binding is nested.
pub proof fn law_unguarded_arm_is_split(
    ctx: AssistContextView,
    arm: int,
    arm_list: int,
    arm_pat: int,
    pat: int,
    ty: TypeView,
)
    requires
        is_arm_at_cursor(ctx, arm, arm_list, arm_pat),
        is_binding_at_cursor(ctx, arm_pat, pat),
        is_known_to_match(ctx.sema, pat, ty),
        has_patterns(ty),
        replacement_context(ctx.tree, pat, arm_pat) is Some,
    ensures
        split_assist(ctx) is Some,
        split_at(ctx) matches Some(split) && split.arm_list == arm_list && split.arm_pat == arm_pat
            && split.pat == pat,
{
    law_shortest_is_found(ctx.tree, SyntaxKind::MatchArm, ctx.offset);
    law_arm_has_its_number(ctx.tree, arm, arm_list);
    law_type_expands_to_all_its_patterns(ty);
}

/// A split is of an arm at the cursor that has no guard and of the binding at the cursor, nested
/// as the patterns above it say. It has the patterns of all values of the type that the binding
/// is known to match: one for each variant of an enum, none left out.
pub proof fn law_split_has_all_patterns_of_the_type(ctx: AssistContextView)
    requires
        split_at(ctx) is Some,
    ensures
        ({
            let split = split_at(ctx).unwrap();
            let arms = arms_of(ctx.tree, split.arm_list);
            &&& 0 <= split.arm_index < arms.len()
            &&& is_arm_at_cursor(ctx, arms[split.arm_index], split.arm_list, split.arm_pat)
            &&& is_binding_at_cursor(ctx, split.arm_pat, split.pat)
            &&& replacement_context(ctx.tree, split.pat, split.arm_pat) == Some(split.context)
            &&& split.patterns.len() > 0
            &&& exists|ty: TypeView| #[trigger] is_known_to_match(ctx.sema, split.pat, ty)
            &&& forall|ty: TypeView| #[trigger]
                is_known_to_match(ctx.sema, split.pat, ty) ==> has_patterns(ty) && are_patterns_of(
                    ty,
                    split.patterns,
                )
        }),
{
    let split = split_at(ctx).unwrap();
    law_split_is_of_the_arm_at_the_cursor(ctx);
    let facts = ctx.sema.binding(split.pat).unwrap();
    let ty = facts.pat_type.unwrap();
    assert(is_known_to_match(ctx.sema, split.pat, ty));
    law_type_expands_to_all_its_patterns(ty);
}

/// After a split each value of the type that the binding is known to match is matched by one of
/// the new patterns, and by no two of them.
pub proof fn law_every_value_of_the_type_has_its_pattern<V>(
    ctx: AssistContextView,
    ty: TypeView,
    value: Value<V>,
    fits: spec_fn(Seq<PieceView>, V) -> bool,
)
    requires
        split_at(ctx) is Some,
        is_known_to_match(ctx.sema, split_at(ctx).unwrap().pat, ty),
        is_told_apart(ty, fits),
        is_of_type(ty, value),
    ensures
        ({
            let patterns = split_at(ctx).unwrap().patterns;
            &&& exists|i: int|
                0 <= i < patterns.len() && pat_matches(#[trigger] patterns[i], value, fits)
            &&& forall|i: int, j: int|
                0 <= i < j < patterns.len() ==> !(pat_matches(#[trigger] patterns[i], value, fits)
                    && pat_matches(#[trigger] patterns[j], value, fits))
        }),
{
    law_split_has_all_patterns_of_the_type(ctx);
    law_type_expands_to_all_its_patterns(ty);
    law_expansion_is_complete(ty, value, fits);
}

/// Whether the node says how the binding is nested: it is a tuple struct pattern with a path and
/// has the binding in one of its patterns, or a record pattern with a path that has it in the
/// pattern of a field with its name.
pub open spec fn says_how(tree: Seq<ElementView>, node: int, ident: int) -> bool {
    &&& exists|path: int| is_own_path(tree, node, path)
    &&& {
        ||| tree[node].kind == SyntaxKind::TupleStructPat && exists|field: int|
            is_field_with(tree, node, ident, field)
        ||| tree[node].kind == SyntaxKind::RecordPat && match first_child(
            tree,
            node,
            Class::Kind(SyntaxKind::RecordPatFieldList),
        ) {
            Some(list) => exists|field: int| is_named_field_with(tree, list, ident, field),
            None => false,
        }
    }
}

/// A binding in a field of a tuple struct pattern, or in a field of a record pattern that is
/// written with its name, which is the pattern of an arm without a guard or stands in it, is
/// split where it is of an enum or of `bool` and its type has patterns, whatever else stands in
/// the pattern; one that is the whole pattern is split there too.
pub proof fn law_nested_binding_is_split(
    ctx: AssistContextView,
    arm: int,
    arm_list: int,
    arm_pat: int,
    node: int,
    pat: int,
    ty: TypeView,
)
    requires
        is_tree(ctx.tree),
        is_arm_at_cursor(ctx, arm, arm_list, arm_pat),
        is_binding_at_cursor(ctx, arm_pat, pat),
        is_known_to_match(ctx.sema, pat, ty),
        has_patterns(ty),
        pat == arm_pat || (is_on_the_way(ctx.tree, node, pat, arm_pat) && says_how(
            ctx.tree,
            node,
            pat,
        )),
    ensures
        split_assist(ctx) is Some,
        split_at(ctx) matches Some(split) && split.pat == pat && split.arm_pat == arm_pat,
{
    law_shortest_is_found(ctx.tree, SyntaxKind::IdentPat, ctx.offset);
    if pat != arm_pat {
        law_every_tuple_struct_says(ctx.tree, node, pat);
        law_every_record_says(ctx.tree, node, pat);
        assert(context_at(ctx.tree, node, pat) is Some);
        law_nearest_pattern_decides(ctx.tree, pat, arm_pat);
    }
    law_unguarded_arm_is_split(ctx, arm, arm_list, arm_pat, pat, ty);
}

/// The arms of a list are all match arms that stand in it, in the order of the file.
pub proof fn law_arms_are_all_in_the_list(
    tree: Seq<ElementView>,
    arm_list: int,
    arms: Seq<int>,
)
    ensures
        are_children(tree, arm_list, Class::Kind(SyntaxKind::MatchArm), arms) <==> arms == arms_of(
            tree,
            arm_list,
        ),
{
    law_children_are_all_of_the_class(tree, arm_list, Class::Kind(SyntaxKind::MatchArm), arms);
}

/// The place that an arm of the file has in the list after a split.
pub open spec fn place_after(split: SplitView, i: int) -> int {
    if i < split.arm_index {
        i
    } else {
        i - 1 + split.patterns.len()
    }
}

/// Each arm that is not split is kept in its order and is written with all tokens of the file
/// that stand within it, in their order, those of its guard too, and with no others; a comma is
/// put behind it just where it wants one.
pub proof fn law_other_arms_keep_all_their_tokens(
    ctx: AssistContextView,
    split: SplitView,
    arms: Seq<int>,
    i: int,
    tokens: Seq<int>,
)
    requires
        are_children(ctx.tree, split.arm_list, Class::Kind(SyntaxKind::MatchArm), arms),
        0 <= split.arm_index < arms.len(),
        0 <= i < arms.len(),
        i != split.arm_index,
        are_tokens_of(ctx.tree, arms[i], tokens),
    ensures
        all_arms(ctx, split).len() == arms.len() - 1 + split.patterns.len(),
        is_made_of(ctx.tree, tokens, all_arms(ctx, split)[place_after(split, i)].text),
        all_arms(ctx, split)[place_after(split, i)] == existing_arm(ctx.tree, arms[i]),
{
    law_arms_are_all_in_the_list(ctx.tree, split.arm_list, arms);
    law_existing_arm_is_written(ctx.tree, arms[i]);
    assert(old_arms(ctx, split).len() == arms.len());
    assert(old_arms(ctx, split)[i] == existing_arm(ctx.tree, arms[i]));
}

/// In the place of the arm that is split stands one arm for each pattern, in their order: the
/// pattern of the arm with that in the place of the binding.
pub proof fn law_new_arms_stand_in_its_place(
    ctx: AssistContextView,
    split: SplitView,
    arms: Seq<int>,
    i: int,
)
    requires
        are_children(ctx.tree, split.arm_list, Class::Kind(SyntaxKind::MatchArm), arms),
        0 <= split.arm_index < arms.len(),
        0 <= i < split.patterns.len(),
    ensures
        all_arms(ctx, split).len() == arms.len() - 1 + split.patterns.len(),
        all_arms(ctx, split)[split.arm_index + i] == new_arm(
            replaced_pattern(ctx.tree, split.arm_pat, split.patterns[i], split.context),
            ctx.expr_fill_default,
        ),
        new_arms(ctx, split).len() == split.patterns.len(),
        new_arms(ctx, split)[i] == all_arms(ctx, split)[split.arm_index + i],
{
    law_arms_are_all_in_the_list(ctx.tree, split.arm_list, arms);
    assert(old_arms(ctx, split).len() == arms.len());
}

/// After a split the list has its other arms and one arm for each pattern, and no more.
pub proof fn law_no_arm_is_lost_or_added(
    ctx: AssistContextView,
    split: SplitView,
    arms: Seq<int>,
)
    requires
        are_children(ctx.tree, split.arm_list, Class::Kind(SyntaxKind::MatchArm), arms),
        0 <= split.arm_index < arms.len(),
    ensures
        old_arms(ctx, split).len() == arms.len(),
        forall|i: int|
            0 <= i < arms.len() ==> #[trigger] old_arms(ctx, split)[i] == existing_arm(
                ctx.tree,
                arms[i],
            ),
        new_arms(ctx, split).len() == split.patterns.len(),
        all_arms(ctx, split).len() == arms.len() - 1 + split.patterns.len(),
{
    law_arms_are_all_in_the_list(ctx.tree, split.arm_list, arms);
}

/// Each new arm has its pattern written in it, unbroken, however the binding is nested.
pub proof fn law_every_new_arm_has_its_pattern(ctx: AssistContextView, i: int)
    requires
        is_tree(ctx.tree),
        split_at(ctx) is Some,
        0 <= i < split_at(ctx).unwrap().patterns.len(),
    ensures
        ({
            let split = split_at(ctx).unwrap();
            let arm = all_arms(ctx, split)[split.arm_index + i];
            stands_in(split.patterns[i].text(), arm.text)
        }),
{
    let split = split_at(ctx).unwrap();
    let arms = arms_of(ctx.tree, split.arm_list);
    let new = replaced_pattern(ctx.tree, split.arm_pat, split.patterns[i], split.context);
    let part = split.patterns[i].text();
    law_split_has_all_patterns_of_the_type(ctx);
    law_shortest_is_found(ctx.tree, SyntaxKind::IdentPat, ctx.offset);
    if split.pat != split.arm_pat {
        law_nearest_pattern_decides(ctx.tree, split.pat, split.arm_pat);
        let node = choose|node: int| #[trigger]
            is_nearest_with_context(ctx.tree, node, split.pat, split.arm_pat) && context_at(
                ctx.tree,
                node,
                split.pat,
            ) == Some(split.context);
        law_field_holds_the_binding(ctx.tree, node, split.pat);
        law_every_record_says(ctx.tree, node, split.pat);
        law_node_says_what_its_fields_say(ctx.tree, node, split.pat);
        assert(is_said_by(ctx.tree, node, split.pat, split.context));
    }
    assert(has_place(split.context));
    law_replacement_stands_in_the_new_pattern(
        ctx.tree,
        split.arm_pat,
        split.patterns[i],
        split.context,
    );
    let (before, behind) = choose|before: Seq<PieceView>, behind: Seq<PieceView>|
        new.text() == #[trigger] (before + part + behind);
    law_arms_are_all_in_the_list(ctx.tree, split.arm_list, arms);
    law_new_arms_stand_in_its_place(ctx, split, arms, i);
    law_new_arm_is_written(new, ctx.expr_fill_default);
    let arm = new_arm(new, ctx.expr_fill_default);
    let tail = arm.text.skip(new.text().len() as int);
    assert(arm.text =~= new.text() + tail);
    assert(arm.text =~= before + part + (behind + tail));
}

/// An arm on its line, in a list that stands so many levels to the right.
pub open spec fn line_of(arm: ArmView, level: nat) -> Seq<char> {
    "\n    "@ + spaces(4 * level) + chars(indented(arm.text, level)) + (if arm.needs_comma {
        ","@
    } else {
        Seq::<char>::empty()
    })
}

proof fn lemma_one_moved(text: Seq<char>, blank: bool, level: nat)
    ensures
        ({
            let piece = PieceView { whitespace: blank, text };
            chars(indented(seq![piece], level)) == indented_piece(piece, level).text
        }),
{
    let piece = PieceView { whitespace: blank, text };
    let moved = indented(seq![piece], level);
    assert(moved =~= seq![indented_piece(piece, level)]);
    law_pieces_are_read_in_order(indented_piece(piece, level), moved, moved);
}

proof fn lemma_lines_read(arms: Seq<ArmView>, level: nat)
    ensures
        chars(indented(arm_lines(arms), level)) == Seq::new(
            arms.len(),
            |k: int| line_of(arms[k], level),
        ).flatten(),
    decreases arms.len(),
{
    let lines = Seq::new(arms.len(), |k: int| line_of(arms[k], level));
    if arms.len() == 0 {
        law_arms_are_written_line_by_line(
            ArmView { text: Seq::empty(), needs_comma: false },
            arms,
            arms,
        );
        assert(arms =~= Seq::<ArmView>::empty());
        assert(indented(arm_lines(arms), level) =~= Seq::<PieceView>::empty());
        assert(chars(indented(arm_lines(arms), level)) =~= lines.flatten());
    } else {
        let before = arms.drop_last();
        let last = arms.last();
        lemma_lines_read(before, level);
        let earlier = Seq::new(before.len(), |k: int| line_of(before[k], level));
        assert(lines =~= earlier.push(line_of(last, level)));
        earlier.lemma_flatten_push(line_of(last, level));
        assert(arms =~= before + seq![last]);
        law_arms_are_written_line_by_line(last, before, seq![last]);
        let start = seq![gap("\n    "@)];
        let end = if last.needs_comma {
            seq![word(","@)]
        } else {
            Seq::<PieceView>::empty()
        };
        let own = arm_lines(seq![last]);
        assert(own == start + last.text + end);
        law_texts_move_together(arm_lines(before), own, level);
        law_texts_move_together(start + last.text, end, level);
        law_texts_move_together(start, last.text, level);
        let moved = indented(own, level);
        law_pieces_are_read_in_order(gap("\n    "@), indented(arm_lines(before), level), moved);
        law_pieces_are_read_in_order(
            gap("\n    "@),
            indented(start, level) + indented(last.text, level),
            indented(end, level),
        );
        law_pieces_are_read_in_order(
            gap("\n    "@),
            indented(start, level),
            indented(last.text, level),
        );
        reveal_strlit("\n    ");
        reveal_strlit(",");
        assert("\n    "@[0] == '\n');
        assert(gap("\n    "@).text.contains('\n'));
        lemma_one_moved("\n    "@, true, level);
        lemma_one_moved(","@, false, level);
        assert(chars(indented(start, level)) =~= "\n    "@ + spaces(4 * level));
        if !last.needs_comma {
            assert(indented(end, level) =~= Seq::<PieceView>::empty());
            assert(chars(indented(end, level)) =~= Seq::<char>::empty());
        }
        assert(chars(moved) =~= line_of(last, level));
    }
}

/// The change of a split takes the place of the list, where that has one in the file, and none
/// is made just where it has none. What it writes begins with a brace, has one line for each
/// arm of the list after the split, in their order, and ends with a brace on a line of its own,
/// all of it as far to the right as the list stands.
pub proof fn law_change_is_written_arm_by_arm(ctx: AssistContextView, split: SplitView)
    ensures
        match ctx.sema.place(split.arm_list) {
            Some(place) => {
                let arms = all_arms(ctx, split);
                let level = place.indent as nat;
                match split_edit(ctx, split) {
                    Some(edit) => {
                        &&& edit.range == place.range
                        &&& edit.text == "{"@ + Seq::new(
                            arms.len(),
                            |k: int| line_of(arms[k], level),
                        ).flatten() + "\n"@ + spaces(4 * level) + "}"@
                    },
                    None => false,
                }
            },
            None => split_edit(ctx, split) is None,
        },
{
    if let Some(place) = ctx.sema.place(split.arm_list) {
        let arms = all_arms(ctx, split);
        let level = place.indent as nat;
        let lines = Seq::new(arms.len(), |k: int| line_of(arms[k], level)).flatten();
        lemma_lines_read(arms, level);
        law_arms_are_written_line_by_line(
            ArmView { text: Seq::empty(), needs_comma: false },
            arms,
            arms,
        );
        let opening = seq![word("{"@)];
        let closing = seq![gap("\n"@)];
        let brace = seq![word("}"@)];
        let body = arm_lines(arms);
        assert(arm_list_text(arms) =~= opening + body + closing + brace);
        law_texts_move_together(opening + body + closing, brace, level);
        law_texts_move_together(opening + body, closing, level);
        law_texts_move_together(opening, body, level);
        law_pieces_are_read_in_order(
            word("{"@),
            indented(opening, level) + indented(body, level) + indented(closing, level),
            indented(brace, level),
        );
        law_pieces_are_read_in_order(
            word("{"@),
            indented(opening, level) + indented(body, level),
            indented(closing, level),
        );
        law_pieces_are_read_in_order(word("{"@), indented(opening, level), indented(body, level));
        reveal_strlit("\n");
        assert("\n"@[0] == '\n');
        assert(gap("\n"@).text.contains('\n'));
        lemma_one_moved("{"@, false, level);
        lemma_one_moved("\n"@, true, level);
        lemma_one_moved("}"@, false, level);
        assert(split_edit(ctx, split).unwrap().text =~= "{"@ + lines + "\n"@ + spaces(4 * level)
            + "}"@);
    }
}

/// What a token reads after its lines have moved so many levels to the right.
pub open spec fn moved_token(token: ElementView, level: nat) -> Seq<char> {
    if token.kind == SyntaxKind::Whitespace && exists|i: int|
        0 <= i < token.text.len() && token.text[i] == '\n' {
        token.text + spaces(4 * level)
    } else {
        token.text
    }
}

proof fn lemma_chars_flatten(text: Seq<PieceView>)
    ensures
        chars(text) == Seq::new(text.len(), |k: int| text[k].text).flatten(),
    decreases text.len(),
{
    let parts = Seq::new(text.len(), |k: int| text[k].text);
    if text.len() == 0 {
        assert(chars(text) =~= parts.flatten());
    } else {
        let before = text.drop_last();
        lemma_chars_flatten(before);
        let earlier = Seq::new(before.len(), |k: int| before[k].text);
        assert(parts =~= earlier.push(text.last().text));
        earlier.lemma_flatten_push(text.last().text);
    }
}

/// The line of an arm that is not split reads as the arm does in the file, token by token, but
/// that lines of its own move to the right with the list.
pub proof fn law_line_of_an_other_arm_reads_as_in_the_file(
    tree: Seq<ElementView>,
    arm: int,
    tokens: Seq<int>,
    level: nat,
)
    requires
        are_tokens_of(tree, arm, tokens),
    ensures
        line_of(existing_arm(tree, arm), level) == "\n    "@ + spaces(4 * level) + Seq::new(
            tokens.len(),
            |k: int| moved_token(tree[tokens[k]], level),
        ).flatten() + (if existing_arm(tree, arm).needs_comma {
            ","@
        } else {
            Seq::<char>::empty()
        }),
{
    let text = existing_arm(tree, arm).text;
    law_existing_arm_is_written(tree, arm);
    law_lines_move_to_the_right(text, level);
    let moved = indented(text, level);
    lemma_chars_flatten(moved);
    let parts = Seq::new(moved.len(), |k: int| moved[k].text);
    let wanted = Seq::new(tokens.len(), |k: int| moved_token(tree[tokens[k]], level));
    assert forall|k: int| 0 <= k < tokens.len() implies parts[k] == #[trigger] wanted[k] by {
        assert(text[k].text == tree[tokens[k]].text);
        let _ = moved[k];
        if has_line_break(text[k]) {
            assert(parts[k] =~= text[k].text + spaces(4 * level));
        }
    }
    assert(parts =~= wanted);
}

/// What is offered: there is something just where there is a split. It is named and labelled as
/// a case split, rewrites the file, is about the binding, and makes the change of the split.
pub proof fn law_offer_is_the_split(ctx: AssistContextView)
    ensures
        match (split_assist(ctx), split_at(ctx)) {
            (Some(assist), Some(split)) => {
                &&& assist.name == "split_match_arm"@
                &&& assist.label == "Case splitting on match arms"@
                &&& assist.kind == AssistKind::RefactorRewrite
                &&& assist.target == ctx.tree[split.pat].range
                &&& assist.edit == split_edit(ctx, split)
            },
            (None, None) => true,
            _ => false,
        },
{
}

} // verus!
