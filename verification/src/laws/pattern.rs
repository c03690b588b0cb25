//! What holds of patterns: those that a type expands to, how a binding is nested, and what the
//! pattern of an arm becomes.

use crate::expand::{binding_name, expanded_patterns, variant_pattern};
use crate::laws::text::{
    law_fields_stand_in_the_pattern, law_wildcard_is_written, stands_in, word,
};
use crate::laws::tree::{
    are_children, is_pattern, law_children_are_all_of_the_class, law_first_child_is_the_first,
    law_siblings_are_apart,
};
use crate::laws::{
    law_field_holds_the_binding, law_named_field_holds_the_binding, law_own_field_is_found,
    lemma_first_field_name, lemma_first_holding,
};
use crate::pat::PatView;
use crate::replace::{
    context_at, first_field_name_with, first_holding, name_of_field_with, record_context,
    replaced_pattern, replacement_context, tuple_struct_context, ReplacementContextView,
};
use crate::semantics::{TypeView, VariantFieldsView, VariantView};
use crate::text::{chars, decimal, PieceView};
use crate::tree::{
    children, first_child, is_tree, is_within, text_of, Class, ElementView, SyntaxKind,
};
use vstd::prelude::*;

verus! {

/// Whether the pattern names the variant and has something for each of its fields: in round
/// brackets a binding, by the suggested name or else by an underscore and the number of the
/// field; in braces the name; for a variant without fields nothing.
pub open spec fn is_pattern_of(variant: VariantView, pat: PatView) -> bool {
    match (variant.path, variant.fields, pat) {
        (
            Some(name),
            VariantFieldsView::Tuple(names),
            PatView::TupleStruct { path, fields },
        ) => {
            &&& path == seq![word(name)]
            &&& fields.len() == names.len()
            &&& forall|i: int|
                0 <= i < names.len() ==> (#[trigger] fields[i]) == match names[i] {
                    Some(own) => seq![word(own)],
                    None => seq![word("_"@ + decimal(i as nat))],
                }
        },
        (
            Some(name),
            VariantFieldsView::Record(names),
            PatView::Record { path, named, rest },
        ) => {
            &&& path == seq![word(name)]
            &&& !rest
            &&& named.len() == names.len()
            &&& forall|i: int|
                0 <= i < names.len() ==> (#[trigger] named[i]).name == names[i] && named[i].pat
                    is None
        },
        (Some(name), VariantFieldsView::Unit, PatView::Path(path)) => path == seq![word(name)],
        _ => false,
    }
}

/// A variant that can be named has one pattern, which names it and all its fields; one that
/// cannot be named has none.
pub proof fn law_pattern_names_the_variant(variant: VariantView)
    ensures
        match variant_pattern(variant) {
            Some(pat) => is_pattern_of(variant, pat),
            None => variant.path is None,
        },
        forall|pat: PatView| #[trigger]
            is_pattern_of(variant, pat) ==> variant_pattern(variant) == Some(pat),
{
    reveal_strlit("_");
    assert("_"@ =~= seq!['_']);
    if let Some(own) = variant_pattern(variant) {
        assert forall|pat: PatView| #[trigger] is_pattern_of(variant, pat) implies pat == own by {
            match (own, pat) {
                (
                    PatView::TupleStruct { path: _, fields: made },
                    PatView::TupleStruct { path: _, fields },
                ) => {
                    assert(made =~= fields);
                },
                (
                    PatView::Record { path: _, named: made, rest: _ },
                    PatView::Record { path: _, named, rest: _ },
                ) => {
                    assert(made =~= named);
                },
                _ => {},
            }
        }
    }
}

/// Whether these are the patterns of all values of the type: one for each variant of an enum, in
/// their order and none left out; `true` and `false` for `bool`.
pub open spec fn are_patterns_of(ty: TypeView, patterns: Seq<PatView>) -> bool {
    match ty {
        TypeView::Enum(variants) => {
            &&& patterns.len() == variants.len()
            &&& forall|i: int|
                0 <= i < variants.len() ==> is_pattern_of(variants[i], #[trigger] patterns[i])
        },
        TypeView::Bool => {
            &&& patterns.len() == 2
            &&& patterns[0] == PatView::Literal(true)
            &&& patterns[1] == PatView::Literal(false)
        },
        TypeView::Other => false,
    }
}

/// A type expands to the patterns of all its values; it does not expand just where one of its
/// variants cannot be named or it is neither an enum nor `bool`.
pub proof fn law_type_expands_to_all_its_patterns(ty: TypeView)
    ensures
        match expanded_patterns(ty) {
            Some(patterns) => are_patterns_of(ty, patterns),
            None => match ty {
                TypeView::Enum(variants) => exists|i: int|
                    0 <= i < variants.len() && (#[trigger] variants[i]).path is None,
                TypeView::Bool => false,
                TypeView::Other => true,
            },
        },
        forall|patterns: Seq<PatView>| #[trigger]
            are_patterns_of(ty, patterns) ==> expanded_patterns(ty) == Some(patterns),
{
    if let TypeView::Enum(variants) = ty {
        assert forall|i: int| 0 <= i < variants.len() implies match variant_pattern(
            #[trigger] variants[i],
        ) {
            Some(pat) => is_pattern_of(variants[i], pat),
            None => variants[i].path is None,
        } by {
            law_pattern_names_the_variant(variants[i]);
        }
    }
    assert forall|patterns: Seq<PatView>| #[trigger] are_patterns_of(
        ty,
        patterns,
    ) implies expanded_patterns(ty) == Some(patterns) by {
        match ty {
            TypeView::Enum(variants) => {
                assert forall|i: int| 0 <= i < variants.len() implies (#[trigger] variants[i]).path
                    is Some && variant_pattern(variants[i]) == Some(patterns[i]) by {
                    law_pattern_names_the_variant(variants[i]);
                    assert(is_pattern_of(variants[i], patterns[i]));
                }
                assert(expanded_patterns(ty).unwrap() =~= patterns);
            },
            _ => {
                assert(expanded_patterns(ty).unwrap() =~= patterns);
            },
        }
    }
}

/// Whether the element is a path of the node's own.
pub open spec fn is_own_path(tree: Seq<ElementView>, node: int, i: int) -> bool {
    0 <= i < tree.len() && tree[i].parent == Some(node) && tree[i].kind == SyntaxKind::Path
}

/// Whether the element is a pattern, of whatever kind, that stands in the node, and has the
/// binding in it.
pub open spec fn is_field_with(tree: Seq<ElementView>, node: int, ident: int, i: int) -> bool {
    0 <= i < tree.len() && tree[i].parent == Some(node) && is_pattern(tree[i].kind) && is_within(
        tree,
        i,
        ident,
    )
}

/// A tuple struct pattern with a path says how a binding is nested just where the binding is in
/// one of its fields; what the other fields are makes no difference.
pub proof fn law_every_tuple_struct_says(tree: Seq<ElementView>, node: int, ident: int)
    ensures
        tuple_struct_context(tree, node, ident) is Some <==> {
            &&& tree[node].kind == SyntaxKind::TupleStructPat
            &&& exists|path: int| is_own_path(tree, node, path)
            &&& exists|field: int| is_field_with(tree, node, ident, field)
        },
{
    let class = Class::Kind(SyntaxKind::Path);
    let fields = children(tree, node, Class::Pat);
    law_first_child_is_the_first(tree, node, class);
    law_children_are_all_of_the_class(tree, node, Class::Pat, fields);
    lemma_first_holding(tree, fields, ident);
    match first_child(tree, node, class) {
        Some(path) => {
            assert(is_own_path(tree, node, path));
        },
        None => {
            assert forall|path: int| !is_own_path(tree, node, path) by {
                let _ = tree[path];
            }
        },
    }
    match first_holding(tree, fields, ident) {
        Some(i) => {
            assert(fields.contains(fields[i]));
            assert(is_field_with(tree, node, ident, fields[i]));
        },
        None => {
            assert forall|field: int| !is_field_with(tree, node, ident, field) by {
                if is_field_with(tree, node, ident, field) {
                    assert(fields.contains(field));
                    let i = choose|i: int| 0 <= i < fields.len() && fields[i] == field;
                    assert(is_within(tree, fields[i], ident));
                }
            }
        },
    }
}

/// What a tuple struct pattern says of a binding: its first path, the number of its patterns,
/// and which of these is the first that has the binding in it.
pub proof fn law_tuple_struct_says_which_field(
    tree: Seq<ElementView>,
    node: int,
    ident: int,
    fields: Seq<int>,
    at: int,
)
    requires
        are_children(tree, node, Class::Pat, fields),
        tuple_struct_context(tree, node, ident) is Some,
        0 <= at < fields.len(),
        is_within(tree, fields[at], ident),
        forall|j: int| 0 <= j < at ==> !is_within(tree, #[trigger] fields[j], ident),
    ensures
        match first_child(tree, node, Class::Kind(SyntaxKind::Path)) {
            Some(path) => tuple_struct_context(tree, node, ident) == Some(
                ReplacementContextView::TupleStruct {
                    outer_path: path,
                    field_index: at,
                    total_fields: fields.len() as int,
                },
            ),
            None => false,
        },
{
    law_children_are_all_of_the_class(tree, node, Class::Pat, fields);
    law_field_holds_the_binding(tree, node, ident);
    lemma_first_holding(tree, fields, ident);
}

/// Whether the element is a field of the list that is written with its name and has the binding
/// in its pattern.
pub open spec fn is_named_field_with(
    tree: Seq<ElementView>,
    list: int,
    ident: int,
    i: int,
) -> bool {
    &&& 0 <= i < tree.len()
    &&& tree[i].parent == Some(list)
    &&& tree[i].kind == SyntaxKind::RecordPatField
    &&& first_child(tree, i, Class::Kind(SyntaxKind::NameRef)) is Some
    &&& match first_child(tree, i, Class::Pat) {
        Some(pat) => is_within(tree, pat, ident),
        None => false,
    }
}

/// A field of a record pattern goes by the text of its name where it is written with one and
/// has the binding in its pattern, and by no name else.
pub proof fn law_field_goes_by_its_name(tree: Seq<ElementView>, list: int, ident: int, field: int)
    requires
        0 <= field < tree.len(),
        tree[field].parent == Some(list),
        tree[field].kind == SyntaxKind::RecordPatField,
    ensures
        name_of_field_with(tree, field, ident) is Some <==> is_named_field_with(
            tree,
            list,
            ident,
            field,
        ),
        match (
            name_of_field_with(tree, field, ident),
            first_child(tree, field, Class::Kind(SyntaxKind::NameRef)),
        ) {
            (Some(name), Some(name_ref)) => name == chars(text_of(tree, name_ref)),
            (Some(_), None) => false,
            (None, _) => true,
        },
{
}

/// A record pattern with a path says how a binding is nested just where the binding is in the
/// pattern of one of its fields that is written with its name; what the other fields are makes
/// no difference. It says its first path and the name of the first such field.
pub proof fn law_every_record_says(tree: Seq<ElementView>, node: int, ident: int)
    ensures
        record_context(tree, node, ident) is Some <==> {
            &&& tree[node].kind == SyntaxKind::RecordPat
            &&& exists|path: int| is_own_path(tree, node, path)
            &&& match first_child(tree, node, Class::Kind(SyntaxKind::RecordPatFieldList)) {
                Some(list) => exists|field: int| is_named_field_with(tree, list, ident, field),
                None => false,
            }
        },
        record_context(tree, node, ident) matches Some(context) ==> {
            let list = first_child(
                tree,
                node,
                Class::Kind(SyntaxKind::RecordPatFieldList),
            ).unwrap();
            &&& context is Record
            &&& first_child(tree, node, Class::Kind(SyntaxKind::Path)) == Some(
                context->Record_outer_path,
            )
            &&& exists|field: int|
                {
                    &&& #[trigger] is_named_field_with(tree, list, ident, field)
                    &&& context->Record_field_name == chars(
                        text_of(
                            tree,
                            first_child(tree, field, Class::Kind(SyntaxKind::NameRef)).unwrap(),
                        ),
                    )
                    &&& forall|other: int|
                        other < field ==> !#[trigger] is_named_field_with(tree, list, ident, other)
                }
        },
{
    let class = Class::Kind(SyntaxKind::Path);
    law_first_child_is_the_first(tree, node, class);
    law_named_field_holds_the_binding(tree, node, ident);
    match first_child(tree, node, class) {
        Some(path) => {
            assert(is_own_path(tree, node, path));
        },
        None => {
            assert forall|path: int| !is_own_path(tree, node, path) by {
                let _ = tree[path];
            }
        },
    }
    if let Some(list) = first_child(tree, node, Class::Kind(SyntaxKind::RecordPatFieldList)) {
        let field_class = Class::Kind(SyntaxKind::RecordPatField);
        let fields = children(tree, list, field_class);
        law_children_are_all_of_the_class(tree, list, field_class, fields);
        lemma_first_field_name(tree, fields, ident);
        assert forall|k: int| 0 <= k < fields.len() implies name_of_field_with(
            tree,
            #[trigger] fields[k],
            ident,
        ) is Some == is_named_field_with(tree, list, ident, fields[k]) by {
            assert(fields.contains(fields[k]));
        }
        match first_field_name_with(tree, fields, ident) {
            Some(name) => {
                let k = choose|i: int|
                    0 <= i < fields.len() && name_of_field_with(tree, #[trigger] fields[i], ident)
                        == Some(name) && forall|j: int|
                        0 <= j < i ==> name_of_field_with(tree, #[trigger] fields[j], ident)
                            is None;
                assert(fields.contains(fields[k]));
                assert(is_named_field_with(tree, list, ident, fields[k]));
                assert forall|other: int| other < fields[k] implies !#[trigger]
                    is_named_field_with(tree, list, ident, other) by {
                    if is_named_field_with(tree, list, ident, other) {
                        assert(fields.contains(other));
                        let l = choose|l: int| 0 <= l < fields.len() && fields[l] == other;
                        if l > k {
                            assert(fields[k] < fields[l]);
                        }
                        assert(l < k);
                        assert(name_of_field_with(tree, fields[l], ident) is None);
                    }
                }
            },
            None => {
                assert forall|field: int| !is_named_field_with(tree, list, ident, field) by {
                    if is_named_field_with(tree, list, ident, field) {
                        assert(fields.contains(field));
                        let l = choose|l: int| 0 <= l < fields.len() && fields[l] == field;
                        assert(name_of_field_with(tree, fields[l], ident) is None);
                    }
                }
            },
        }
    }
}

/// A node says what it says as a tuple struct pattern, or what it says as a record pattern; it
/// says nothing where it is neither.
pub proof fn law_node_says_what_its_fields_say(tree: Seq<ElementView>, node: int, ident: int)
    ensures
        forall|context: ReplacementContextView|
            context_at(tree, node, ident) == Some(context) <==> (#[trigger] is_said_by(
                tree,
                node,
                ident,
                context,
            )),
        context_at(tree, node, ident) is Some ==> tree[node].kind == SyntaxKind::TupleStructPat
            || tree[node].kind == SyntaxKind::RecordPat,
{
}

/// Whether the node says so, as a tuple struct pattern or as a record pattern.
pub open spec fn is_said_by(
    tree: Seq<ElementView>,
    node: int,
    ident: int,
    context: ReplacementContextView,
) -> bool {
    tuple_struct_context(tree, node, ident) == Some(context) || record_context(tree, node, ident)
        == Some(context)
}

/// Whether the pattern of the arm is a tuple struct pattern and its path reads as the other.
pub open spec fn reads_the_same(tree: Seq<ElementView>, arm_pat: int, outer_path: int) -> bool {
    &&& tree[arm_pat].kind == SyntaxKind::TupleStructPat
    &&& match first_child(tree, arm_pat, Class::Kind(SyntaxKind::Path)) {
        Some(path) => chars(text_of(tree, path)) == chars(text_of(tree, outer_path)),
        None => false,
    }
}

/// A binding in a field of a tuple struct pattern: the new pattern has that path and so many
/// fields. In the field of the binding stands the replacement; each other reads as the pattern
/// of that number in the arm's pattern, of whatever kind it is, where that has the same path and
/// so many patterns, and is a wildcard elsewhere.
pub proof fn law_every_field_of_the_new_pattern(
    tree: Seq<ElementView>,
    arm_pat: int,
    replacement: PatView,
    outer_path: int,
    field_index: int,
    total_fields: nat,
    originals: Seq<int>,
)
    requires
        are_children(tree, arm_pat, Class::Pat, originals),
    ensures
        ({
            let context = ReplacementContextView::TupleStruct {
                outer_path,
                field_index,
                total_fields: total_fields as int,
            };
            match replaced_pattern(tree, arm_pat, replacement, context) {
                PatView::TupleStruct { path, fields } => {
                    &&& path == text_of(tree, outer_path)
                    &&& fields.len() == total_fields
                    &&& forall|i: int|
                        0 <= i < total_fields ==> #[trigger] fields[i] == if i == field_index {
                            replacement.text()
                        } else if reads_the_same(tree, arm_pat, outer_path) && i
                            < originals.len() {
                            text_of(tree, originals[i])
                        } else {
                            seq![word("_"@)]
                        }
                },
                _ => false,
            }
        }),
{
    law_children_are_all_of_the_class(tree, arm_pat, Class::Pat, originals);
    law_wildcard_is_written();
}

/// A binding that is a field of the arm's own tuple struct pattern: the new pattern has the same
/// path and as many fields as there are patterns of any kind in the arm's pattern; the
/// replacement takes the place of the binding, and each other field reads as in the file.
pub proof fn law_only_the_binding_changes(
    tree: Seq<ElementView>,
    arm_pat: int,
    path: int,
    fields: Seq<int>,
    at: int,
    replacement: PatView,
)
    requires
        is_tree(tree),
        0 <= arm_pat < tree.len(),
        tree[arm_pat].kind == SyntaxKind::TupleStructPat,
        first_child(tree, arm_pat, Class::Kind(SyntaxKind::Path)) == Some(path),
        are_children(tree, arm_pat, Class::Pat, fields),
        0 <= at < fields.len(),
    ensures
        match replacement_context(tree, fields[at], arm_pat) {
            Some(context) => replaced_pattern(tree, arm_pat, replacement, context) == (
            PatView::TupleStruct {
                path: text_of(tree, path),
                fields: Seq::new(
                    fields.len(),
                    |i: int|
                        if i == at {
                            replacement.text()
                        } else {
                            text_of(tree, fields[i])
                        },
                ),
            }),
            None => false,
        },
{
    let ident = fields[at];
    law_children_are_all_of_the_class(tree, arm_pat, Class::Pat, fields);
    law_first_child_is_the_first(tree, arm_pat, Class::Kind(SyntaxKind::Path));
    assert(fields.contains(ident));
    assert(is_own_path(tree, arm_pat, path));
    assert(is_field_with(tree, arm_pat, ident, ident));
    law_every_tuple_struct_says(tree, arm_pat, ident);
    assert forall|j: int| 0 <= j < at implies !is_within(tree, #[trigger] fields[j], ident) by {
        assert(fields.contains(fields[j]));
        law_siblings_are_apart(tree, fields[j], ident);
    }
    law_tuple_struct_says_which_field(tree, arm_pat, ident, fields, at);
    law_own_field_is_found(tree, arm_pat, ident);
    law_every_field_of_the_new_pattern(
        tree,
        arm_pat,
        replacement,
        path,
        at,
        fields.len(),
        fields,
    );
    let context = replacement_context(tree, ident, arm_pat).unwrap();
    match replaced_pattern(tree, arm_pat, replacement, context) {
        PatView::TupleStruct { path: _, fields: made } => {
            assert(made =~= Seq::new(
                fields.len(),
                |i: int|
                    if i == at {
                        replacement.text()
                    } else {
                        text_of(tree, fields[i])
                    },
            ));
        },
        _ => {},
    }
}

/// A binding in a named field of a record pattern, whether or not that is the arm's own: the new
/// pattern has that path, the one field with the replacement for its pattern, and a rest.
pub proof fn law_named_field_gets_the_replacement(
    tree: Seq<ElementView>,
    arm_pat: int,
    replacement: PatView,
    outer_path: int,
    field_name: Seq<char>,
)
    ensures
        match replaced_pattern(
            tree,
            arm_pat,
            replacement,
            ReplacementContextView::Record { outer_path, field_name },
        ) {
            PatView::Record { path, named, rest } => {
                &&& path == text_of(tree, outer_path)
                &&& named.len() == 1
                &&& named[0].name == field_name
                &&& named[0].pat == Some(replacement.text())
                &&& rest
            },
            _ => false,
        },
{
}

/// Whether the context has a place for the replacement.
pub open spec fn has_place(context: ReplacementContextView) -> bool {
    match context {
        ReplacementContextView::TupleStruct { outer_path: _, field_index, total_fields } => 0
            <= field_index < total_fields,
        _ => true,
    }
}

/// However the binding is nested, what is written for the new pattern has the replacement in it,
/// unbroken.
pub proof fn law_replacement_stands_in_the_new_pattern(
    tree: Seq<ElementView>,
    arm_pat: int,
    replacement: PatView,
    context: ReplacementContextView,
)
    requires
        has_place(context),
    ensures
        stands_in(
            replacement.text(),
            replaced_pattern(tree, arm_pat, replacement, context).text(),
        ),
{
    let new = replaced_pattern(tree, arm_pat, replacement, context);
    match context {
        ReplacementContextView::Direct => {
            let none = Seq::<PieceView>::empty();
            assert(new.text() =~= none + replacement.text() + none);
        },
        ReplacementContextView::TupleStruct { outer_path: _, field_index, total_fields: _ } => {
            law_fields_stand_in_the_pattern(new, field_index);
        },
        ReplacementContextView::Record { outer_path: _, field_name: _ } => {
            law_fields_stand_in_the_pattern(new, 0);
        },
    }
}

/// However the binding is nested, different replacements give different new patterns.
pub proof fn law_different_replacements_stay_different(
    tree: Seq<ElementView>,
    arm_pat: int,
    first: PatView,
    second: PatView,
    context: ReplacementContextView,
)
    requires
        has_place(context),
        first.text() != second.text(),
    ensures
        replaced_pattern(tree, arm_pat, first, context) != replaced_pattern(
            tree,
            arm_pat,
            second,
            context,
        ),
{
    let a = replaced_pattern(tree, arm_pat, first, context);
    let b = replaced_pattern(tree, arm_pat, second, context);
    match context {
        ReplacementContextView::Direct => {},
        ReplacementContextView::TupleStruct { outer_path: _, field_index, total_fields: _ } => {
            assert(a->TupleStruct_fields[field_index] != b->TupleStruct_fields[field_index]);
        },
        ReplacementContextView::Record { outer_path: _, field_name: _ } => {
            assert(a->named[0] != b->named[0]);
        },
    }
}

/// A binding for a field in round brackets goes by the name that is suggested, and by an
/// underscore and the number of the field where none is.
pub proof fn law_binding_goes_by_the_suggested_name(name: Seq<char>, i: nat)
    ensures
        binding_name(Some(name), i as int) == name,
        binding_name(None, i as int) == "_"@ + decimal(i),
{
    reveal_strlit("_");
    assert("_"@ =~= seq!['_']);
}

} // verus!
