//! What values of the library stand for, field by field.

use crate::arms::Arm;
use crate::pat::{Pat, PatView, RecordPatField};
use crate::replace::{ReplacementContext, ReplacementContextView};
use crate::semantics::{
    BindingFacts, Semantics, Type, TypeView, Variant, VariantFields, VariantFieldsView,
};
use crate::split::{Assist, AssistContext, Split, TextEdit};
use crate::text::Piece;
use crate::tree::Element;
use vstd::prelude::*;

verus! {

/// A piece stands for its own text.
pub proof fn law_piece_stands_for_its_text(piece: Piece)
    ensures
        piece.deep_view().text == piece.text@,
        piece.deep_view().whitespace == piece.whitespace,
{
}

/// An element stands for its kind, its parent, its range and its text.
pub proof fn law_element_stands_for_itself(element: Element)
    ensures
        element.deep_view().kind == element.kind,
        element.deep_view().range == element.range,
        element.deep_view().text == element.text@,
        element.parent is None <==> element.deep_view().parent is None,
        element.parent matches Some(parent) ==> element.deep_view().parent == Some(parent as int),
{
}

/// A variant stands for its path and for each of its fields, in their order.
pub proof fn law_variant_stands_for_its_fields(variant: Variant)
    ensures
        variant.path is None <==> variant.deep_view().path is None,
        variant.path matches Some(path) ==> variant.deep_view().path == Some(path@),
        match (variant.fields, variant.deep_view().fields) {
            (VariantFields::Tuple(names), VariantFieldsView::Tuple(seen)) => {
                &&& seen.len() == names.len()
                &&& forall|i: int|
                    0 <= i < names.len() ==> (#[trigger] seen[i]) == match names[i] {
                        Some(name) => Some(name@),
                        None => None,
                    }
            },
            (VariantFields::Record(names), VariantFieldsView::Record(seen)) => {
                &&& seen.len() == names.len()
                &&& forall|i: int| 0 <= i < names.len() ==> (#[trigger] seen[i]) == names[i]@
            },
            (VariantFields::Unit, VariantFieldsView::Unit) => true,
            _ => false,
        },
{
}

/// An enum stands for each of its variants, in their order.
pub proof fn law_type_stands_for_its_variants(ty: Type)
    ensures
        match (ty, ty.deep_view()) {
            (Type::Enum(variants), TypeView::Enum(seen)) => {
                &&& seen.len() == variants.len()
                &&& forall|i: int|
                    0 <= i < variants.len() ==> (#[trigger] seen[i]) == variants[i].deep_view()
            },
            (Type::Bool, TypeView::Bool) => true,
            (Type::Other, TypeView::Other) => true,
            _ => false,
        },
{
}

/// What is known of a pattern stands for its types and for whether it stands in a module.
pub proof fn law_facts_stand_for_themselves(facts: BindingFacts)
    ensures
        facts.deep_view().pat == facts.pat,
        facts.deep_view().in_module == facts.in_module,
        facts.binding_type is None <==> facts.deep_view().binding_type is None,
        facts.binding_type matches Some(ty) ==> facts.deep_view().binding_type == Some(
            ty.deep_view(),
        ),
        facts.pat_type is None <==> facts.deep_view().pat_type is None,
        facts.pat_type matches Some(ty) ==> facts.deep_view().pat_type == Some(ty.deep_view()),
{
}

/// What is known of a file stands for all its entries, in their order.
pub proof fn law_semantics_stand_for_all_entries(sema: Semantics)
    ensures
        sema.deep_view().bindings.len() == sema.bindings.len(),
        forall|i: int|
            0 <= i < sema.bindings.len() ==> (#[trigger] sema.deep_view().bindings[i])
                == sema.bindings[i].deep_view(),
        sema.deep_view().places == sema.places@,
{
}

/// A file with the cursor in it stands for its tree, the place of the cursor, what is known and
/// what new arms get.
pub proof fn law_context_stands_for_itself(ctx: AssistContext)
    ensures
        ctx.deep_view().tree == ctx.tree@,
        ctx.deep_view().offset == ctx.offset,
        ctx.deep_view().sema == ctx.sema.deep_view(),
        ctx.deep_view().expr_fill_default == ctx.expr_fill_default,
{
}

/// How a binding is nested stands for the path, the field and how many there are.
pub proof fn law_nesting_stands_for_itself(context: ReplacementContext)
    ensures
        match (context, context.deep_view()) {
            (ReplacementContext::Direct, ReplacementContextView::Direct) => true,
            (
                ReplacementContext::TupleStruct { outer_path, field_index, total_fields },
                ReplacementContextView::TupleStruct {
                    outer_path: path,
                    field_index: index,
                    total_fields: total,
                },
            ) => path == outer_path && index == field_index && total == total_fields,
            (
                ReplacementContext::Record { outer_path, field_name },
                ReplacementContextView::Record { outer_path: path, field_name: name },
            ) => path == outer_path && name == field_name@,
            _ => false,
        },
{
}

/// A pattern stands for its path, its fields, in their order, and its rest.
pub proof fn law_pattern_stands_for_its_fields(pat: Pat, field: RecordPatField)
    ensures
        match (pat, pat.deep_view()) {
            (Pat::Literal(value), PatView::Literal(seen)) => value == seen,
            (Pat::Path(path), PatView::Path(seen)) => seen == path.deep_view(),
            (
                Pat::TupleStruct { path, fields },
                PatView::TupleStruct { path: seen, fields: texts },
            ) => {
                &&& seen == path.deep_view()
                &&& texts.len() == fields.len()
                &&& forall|i: int|
                    0 <= i < fields.len() ==> (#[trigger] texts[i]) == fields[i].deep_view()
            },
            (
                Pat::Record { path, named, rest },
                PatView::Record { path: seen, named: fields, rest: open },
            ) => {
                &&& seen == path.deep_view()
                &&& open == rest
                &&& fields.len() == named.len()
                &&& forall|i: int|
                    0 <= i < named.len() ==> (#[trigger] fields[i]) == named[i].deep_view()
            },
            _ => false,
        },
        field.deep_view().name == field.name@,
        field.pat is None <==> field.deep_view().pat is None,
        field.pat matches Some(pat) ==> field.deep_view().pat == Some(pat.deep_view()),
{
}

/// An arm stands for its text and for whether it wants a comma.
pub proof fn law_arm_stands_for_its_text(arm: Arm)
    ensures
        arm.deep_view().needs_comma == arm.needs_comma,
        arm.deep_view().text.len() == arm.text.len(),
        forall|i: int|
            0 <= i < arm.text.len() ==> (#[trigger] arm.deep_view().text[i])
                == arm.text[i].deep_view(),
{
}

/// A split stands for the arm, the binding in it, how that is nested and each of the patterns,
/// in their order.
pub proof fn law_split_stands_for_itself(split: Split)
    ensures
        split.deep_view().arm_list == split.arm_list,
        split.deep_view().arm_index == split.arm_index,
        split.deep_view().arm_pat == split.arm_pat,
        split.deep_view().pat == split.pat,
        split.deep_view().context == split.context.deep_view(),
        split.deep_view().patterns.len() == split.patterns.len(),
        forall|i: int|
            0 <= i < split.patterns.len() ==> (#[trigger] split.deep_view().patterns[i])
                == split.patterns[i].deep_view(),
{
}

/// What is offered stands for its name, its label, what it is about and the change it makes.
pub proof fn law_offer_stands_for_itself(assist: Assist, edit: TextEdit)
    ensures
        assist.deep_view().name == assist.name@,
        assist.deep_view().label == assist.label@,
        assist.deep_view().kind == assist.kind,
        assist.deep_view().target == assist.target,
        assist.edit is None <==> assist.deep_view().edit is None,
        assist.edit matches Some(own) ==> assist.deep_view().edit == Some(own.deep_view()),
        edit.deep_view().range == edit.range,
        edit.deep_view().text == edit.text@,
{
}

} // verus!
