//! Which values patterns match, and that a split matches what was matched before.
//!
//! What a text matches in a field, `V` being the values of fields, is given by a relation
//! `fits`. What patterns match is built up from it.

use crate::expand::{binding_name, expanded_patterns, variant_pattern};
use crate::laws::{law_field_holds_the_binding, law_other_fields_stay};
use crate::pat::{PatView, RecordPatFieldView};
use crate::replace::{
    first_holding, name_of_field_with, record_context, replaced_pattern, replacement_context,
    tuple_struct_context, ReplacementContextView,
};
use crate::semantics::{TypeView, VariantFieldsView, VariantView};
use crate::text::{chars, PieceView};
use crate::tree::{children, first_child, text_of, Class, ElementView, SyntaxKind};
use vstd::prelude::*;

verus! {

/// The fields of a value, by their numbers or by their names.
pub enum FieldValues<V> {
    Tuple(Seq<V>),
    Record(Map<Seq<char>, V>),
    Unit,
}

/// A value: a `bool`, or one that is made with the constructor of that path.
pub enum Value<V> {
    Bool(bool),
    Made { path: Seq<char>, fields: FieldValues<V> },
}

/// Whether the text is the rest pattern, which stands for any number of fields.
pub open spec fn is_rest(text: Seq<PieceView>) -> bool {
    chars(text) == seq!['.', '.']
}

/// The number of the first of the texts that is the rest pattern.
pub open spec fn rest_at(texts: Seq<Seq<PieceView>>) -> Option<int>
    decreases texts.len(),
{
    if texts.len() == 0 {
        None
    } else {
        match rest_at(texts.drop_last()) {
            Some(i) => Some(i),
            None => if is_rest(texts.last()) {
                Some(texts.len() - 1)
            } else {
                None
            },
        }
    }
}

/// The number of the field that the text at `i` stands for: counted from the first field, or,
/// behind a rest pattern, from the last.
pub open spec fn slot(texts: Seq<Seq<PieceView>>, fields: nat, i: int) -> int {
    match rest_at(texts) {
        Some(rest) if rest < i => fields - texts.len() + i,
        _ => i,
    }
}

/// Whether the texts between the brackets of a tuple struct pattern match these fields: each
/// that is not the rest pattern matches its field, and without a rest pattern there are as many
/// texts as fields.
pub open spec fn fields_match<V>(
    texts: Seq<Seq<PieceView>>,
    values: Seq<V>,
    fits: spec_fn(Seq<PieceView>, V) -> bool,
) -> bool {
    &&& match rest_at(texts) {
        Some(_) => texts.len() <= values.len() + 1,
        None => texts.len() == values.len(),
    }
    &&& forall|i: int|
        0 <= i < texts.len() && Some(i) != rest_at(texts) ==> fits(
            #[trigger] texts[i],
            values[slot(texts, values.len(), i)],
        )
}

/// What is matched against a field that a record pattern names.
pub open spec fn named_text(field: RecordPatFieldView) -> Seq<PieceView> {
    match field.pat {
        Some(pat) => pat,
        None => seq![PieceView::solid(field.name)],
    }
}

/// Whether the fields between the braces of a record pattern match these: each that is named
/// fits, and without a rest all are named.
pub open spec fn named_match<V>(
    named: Seq<RecordPatFieldView>,
    rest: bool,
    values: Map<Seq<char>, V>,
    fits: spec_fn(Seq<PieceView>, V) -> bool,
) -> bool {
    &&& forall|i: int|
        0 <= i < named.len() ==> values.dom().contains((#[trigger] named[i]).name) && fits(
            named_text(named[i]),
            values[named[i].name],
        )
    &&& !rest ==> forall|name: Seq<char>| #[trigger]
        values.dom().contains(name) ==> exists|i: int|
            0 <= i < named.len() && (#[trigger] named[i]).name == name
}

/// Whether the pattern matches the value.
pub open spec fn pat_matches<V>(
    pat: PatView,
    value: Value<V>,
    fits: spec_fn(Seq<PieceView>, V) -> bool,
) -> bool {
    match (pat, value) {
        (PatView::Literal(literal), Value::Bool(own)) => literal == own,
        (PatView::Path(path), Value::Made { path: own, fields: FieldValues::Unit }) => chars(path)
            == own,
        (
            PatView::TupleStruct { path, fields },
            Value::Made { path: own, fields: FieldValues::Tuple(values) },
        ) => chars(path) == own && fields_match(fields, values, fits),
        (
            PatView::Record { path, named, rest },
            Value::Made { path: own, fields: FieldValues::Record(values) },
        ) => chars(path) == own && named_match(named, rest, values, fits),
        _ => false,
    }
}

/// Whether the value is made with the constructor of that path.
pub open spec fn is_made_with<V>(value: Value<V>, path: Option<Seq<char>>) -> bool {
    match value {
        Value::Made { path: own, fields: _ } => path == Some(own),
        Value::Bool(_) => false,
    }
}

/// Whether the value is one of the variant.
pub open spec fn is_of_variant<V>(variant: VariantView, value: Value<V>) -> bool {
    match value {
        Value::Made { path, fields } => variant.path == Some(path) && match (
            variant.fields,
            fields,
        ) {
            (VariantFieldsView::Tuple(names), FieldValues::Tuple(values)) => names.len()
                == values.len(),
            (VariantFieldsView::Record(names), FieldValues::Record(values)) => forall|name|
                #[trigger] values.dom().contains(name) <==> names.contains(name),
            (VariantFieldsView::Unit, FieldValues::Unit) => true,
            _ => false,
        },
        Value::Bool(_) => false,
    }
}

/// Whether the value is one of the type.
pub open spec fn is_of_type<V>(ty: TypeView, value: Value<V>) -> bool {
    match ty {
        TypeView::Enum(variants) => exists|i: int|
            0 <= i < variants.len() && is_of_variant(#[trigger] variants[i], value),
        TypeView::Bool => value is Bool,
        TypeView::Other => false,
    }
}

/// Whether the text matches whatever it is given.
pub open spec fn fits_anything<V>(
    text: Seq<PieceView>,
    fits: spec_fn(Seq<PieceView>, V) -> bool,
) -> bool {
    forall|value: V| #[trigger] fits(text, value)
}

/// Whether the names that the pattern of the variant binds match whatever they are given, and
/// none of them reads as a rest pattern.
pub open spec fn binds_anything<V>(
    variant: VariantView,
    fits: spec_fn(Seq<PieceView>, V) -> bool,
) -> bool {
    match variant.fields {
        VariantFieldsView::Tuple(names) => forall|i: int|
            0 <= i < names.len() ==> {
                let text = seq![PieceView::solid(binding_name(#[trigger] names[i], i))];
                !is_rest(text) && fits_anything(text, fits)
            },
        VariantFieldsView::Record(names) => forall|i: int|
            0 <= i < names.len() ==> {
                let text = seq![PieceView::solid(#[trigger] names[i])];
                fits_anything(text, fits)
            },
        VariantFieldsView::Unit => true,
    }
}

/// Whether the variants of an enum can be told apart: each has a path, which is not the rest
/// pattern, and no two have the same; and what their patterns bind matches anything.
pub open spec fn is_told_apart<V>(
    ty: TypeView,
    fits: spec_fn(Seq<PieceView>, V) -> bool,
) -> bool {
    match ty {
        TypeView::Enum(variants) => {
            &&& forall|i: int|
                0 <= i < variants.len() ==> (#[trigger] variants[i]).path is Some
                    && variants[i].path != Some(seq!['.', '.']) && binds_anything(
                    variants[i],
                    fits,
                )
            &&& forall|i: int, j: int|
                0 <= i < j < variants.len() ==> (#[trigger] variants[i]).path != (
                #[trigger] variants[j]).path
        },
        TypeView::Bool => true,
        TypeView::Other => false,
    }
}

proof fn lemma_chars_of_one(text: Seq<char>)
    ensures
        chars(seq![PieceView::solid(text)]) == text,
{
    let one = seq![PieceView::solid(text)];
    assert(one.drop_last() =~= Seq::<PieceView>::empty());
    assert(chars(one.drop_last()) =~= Seq::<char>::empty());
    assert(chars(one) =~= text);
}

proof fn lemma_rest_at(texts: Seq<Seq<PieceView>>)
    ensures
        match rest_at(texts) {
            Some(i) => 0 <= i < texts.len() && is_rest(texts[i]),
            None => forall|i: int| 0 <= i < texts.len() ==> !is_rest(#[trigger] texts[i]),
        },
    decreases texts.len(),
{
    if texts.len() > 0 {
        let before = texts.drop_last();
        lemma_rest_at(before);
        assert forall|i: int| 0 <= i < before.len() implies #[trigger] texts[i] == before[i] by {}
    }
}

proof fn lemma_same_rest_at(texts: Seq<Seq<PieceView>>, other: Seq<Seq<PieceView>>)
    requires
        texts.len() == other.len(),
        forall|i: int|
            0 <= i < texts.len() ==> is_rest(#[trigger] texts[i]) == is_rest(#[trigger] other[i]),
    ensures
        rest_at(texts) == rest_at(other),
    decreases texts.len(),
{
    if texts.len() > 0 {
        let before = texts.drop_last();
        let other_before = other.drop_last();
        assert forall|i: int| 0 <= i < before.len() implies is_rest(#[trigger] before[i])
            == is_rest(#[trigger] other_before[i]) by {
            assert(before[i] == texts[i] && other_before[i] == other[i]);
        }
        lemma_same_rest_at(before, other_before);
    }
}

/// The pattern of a variant matches the values of the variant, and no values of another path.
proof fn lemma_variant_pattern<V>(
    variant: VariantView,
    value: Value<V>,
    fits: spec_fn(Seq<PieceView>, V) -> bool,
)
    requires
        variant.path is Some,
        binds_anything(variant, fits),
    ensures
        is_of_variant(variant, value) ==> pat_matches(
            variant_pattern(variant).unwrap(),
            value,
            fits,
        ),
        pat_matches(variant_pattern(variant).unwrap(), value, fits) ==> is_made_with(
            value,
            variant.path,
        ),
{
    lemma_chars_of_one(variant.path.unwrap());
    if is_of_variant(variant, value) {
        match (variant.fields, value) {
            (
                VariantFieldsView::Tuple(names),
                Value::Made { path: _, fields: FieldValues::Tuple(values) },
            ) => {
                let texts = Seq::new(
                    names.len(),
                    |i: int| seq![PieceView::solid(binding_name(names[i], i))],
                );
                lemma_rest_at(texts);
                assert forall|i: int| 0 <= i < texts.len() implies !is_rest(#[trigger] texts[i])
                    && fits(texts[i], values[i]) by {
                    let _ = names[i];
                }
                assert(fields_match(texts, values, fits));
            },
            (
                VariantFieldsView::Record(names),
                Value::Made { path: _, fields: FieldValues::Record(values) },
            ) => {
                let named = Seq::new(
                    names.len(),
                    |i: int| RecordPatFieldView { name: names[i], pat: None },
                );
                assert forall|i: int| 0 <= i < named.len() implies values.dom().contains(
                    (#[trigger] named[i]).name,
                ) && fits(named_text(named[i]), values[named[i].name]) by {
                    assert(names.contains(names[i]));
                }
                assert forall|name: Seq<char>| #[trigger]
                    values.dom().contains(name) implies exists|i: int|
                    0 <= i < named.len() && (#[trigger] named[i]).name == name by {
                    let i = choose|i: int| 0 <= i < names.len() && names[i] == name;
                    assert(named[i].name == name);
                }
                assert(named_match(named, false, values, fits));
            },
            _ => {},
        }
    }
}

/// The patterns of a type are complete and do not overlap: each value of the type is matched by
/// one of them, and no value by two.
pub proof fn law_expansion_is_complete<V>(
    ty: TypeView,
    value: Value<V>,
    fits: spec_fn(Seq<PieceView>, V) -> bool,
)
    requires
        is_told_apart(ty, fits),
    ensures
        expanded_patterns(ty) is Some,
        is_of_type(ty, value) ==> exists|i: int|
            0 <= i < expanded_patterns(ty).unwrap().len() && pat_matches(
                #[trigger] expanded_patterns(ty).unwrap()[i],
                value,
                fits,
            ),
        forall|i: int, j: int|
            0 <= i < j < expanded_patterns(ty).unwrap().len() ==> !(pat_matches(
                #[trigger] expanded_patterns(ty).unwrap()[i],
                value,
                fits,
            ) && pat_matches(#[trigger] expanded_patterns(ty).unwrap()[j], value, fits)),
{
    let patterns = expanded_patterns(ty).unwrap();
    match ty {
        TypeView::Enum(variants) => {
            assert forall|i: int| 0 <= i < variants.len() implies #[trigger] patterns[i]
                == variant_pattern(variants[i]).unwrap() && (is_of_variant(variants[i], value)
                ==> pat_matches(patterns[i], value, fits)) && (pat_matches(
                patterns[i],
                value,
                fits,
            ) ==> is_made_with(value, variants[i].path)) by {
                lemma_variant_pattern(variants[i], value, fits);
            }
            if is_of_type(ty, value) {
                let i = choose|i: int|
                    0 <= i < variants.len() && is_of_variant(#[trigger] variants[i], value);
                assert(pat_matches(patterns[i], value, fits));
            }
            assert forall|i: int, j: int| 0 <= i < j < patterns.len() implies !(pat_matches(
                #[trigger] patterns[i],
                value,
                fits,
            ) && pat_matches(#[trigger] patterns[j], value, fits)) by {
                assert(variants[i].path != variants[j].path);
            }
        },
        TypeView::Bool => {
            if let Value::Bool(own) = value {
                let i: int = if own {
                    0
                } else {
                    1
                };
                assert(pat_matches(patterns[i], value, fits));
            }
        },
        TypeView::Other => {},
    }
}

/// Whether the relation reads the patterns as they match: as a text in a field each fits
/// just those values that, opened, the pattern matches.
pub open spec fn reads_patterns<V>(
    patterns: Seq<PatView>,
    fits: spec_fn(Seq<PieceView>, V) -> bool,
    open: spec_fn(V) -> Value<V>,
) -> bool {
    forall|i: int, value: V|
        0 <= i < patterns.len() ==> #[trigger] fits(patterns[i].text(), value) == pat_matches(
            patterns[i],
            open(value),
            fits,
        )
}

/// The pattern of the arm, read as its path and its fields.
pub open spec fn tuple_struct_pattern(tree: Seq<ElementView>, pat: int) -> PatView {
    PatView::TupleStruct {
        path: text_of(
            tree,
            first_child(tree, pat, Class::Kind(SyntaxKind::Path)).unwrap(),
        ),
        fields: children(tree, pat, Class::Pat).map_values(|field: int| text_of(tree, field)),
    }
}

/// What stands in the field of the value that the binding is matched against.
pub open spec fn value_bound<V>(
    tree: Seq<ElementView>,
    arm_pat: int,
    ident: int,
    value: Value<V>,
) -> V {
    let fields = children(tree, arm_pat, Class::Pat);
    let texts = fields.map_values(|field: int| text_of(tree, field));
    let values = value->fields->Tuple_0;
    values[slot(texts, values.len(), first_holding(tree, fields, ident).unwrap())]
}

/// The patterns of the new arms.
pub open spec fn split_patterns(
    tree: Seq<ElementView>,
    arm_pat: int,
    ident: int,
    patterns: Seq<PatView>,
) -> Seq<PatView> {
    patterns.map_values(
        |pat: PatView|
            replaced_pattern(
                tree,
                arm_pat,
                pat,
                tuple_struct_context(tree, arm_pat, ident).unwrap(),
            ),
    )
}

proof fn lemma_not_rest(pat: PatView)
    requires
        pat matches PatView::Path(path) ==> !is_rest(path),
    ensures
        !is_rest(pat.text()),
{
    let text = pat.text();
    let dots = seq!['.', '.'];
    match pat {
        PatView::Literal(_) => {
            lemma_chars_of_one(text[0].text);
            assert(chars(text).len() > 2);
        },
        PatView::Path(_) => {},
        PatView::TupleStruct { path, fields } => {
            assert(text.last() == PieceView::solid(seq![')']));
            assert(chars(text).last() == ')');
            assert(dots.last() == '.');
        },
        PatView::Record { path, named, rest } => {
            assert(text.last() == PieceView::solid(seq!['}']));
            assert(chars(text).last() == '}');
            assert(dots.last() == '.');
        },
    }
}

proof fn lemma_expansion_is_no_rest<V>(
    ty: TypeView,
    fits: spec_fn(Seq<PieceView>, V) -> bool,
    i: int,
)
    requires
        is_told_apart(ty, fits),
        0 <= i < expanded_patterns(ty).unwrap().len(),
    ensures
        !is_rest(expanded_patterns(ty).unwrap()[i].text()),
{
    let pat = expanded_patterns(ty).unwrap()[i];
    if let TypeView::Enum(variants) = ty {
        assert(pat == variant_pattern(variants[i]).unwrap());
        lemma_chars_of_one(variants[i].path.unwrap());
    }
    lemma_not_rest(pat);
}

/// Texts that differ in one place only, where neither is a rest pattern, match the same fields
/// but for that place.
proof fn lemma_one_text_differs<V>(
    texts: Seq<Seq<PieceView>>,
    at: int,
    text: Seq<PieceView>,
    values: Seq<V>,
    fits: spec_fn(Seq<PieceView>, V) -> bool,
)
    requires
        0 <= at < texts.len(),
        !is_rest(texts[at]),
        !is_rest(text),
        fits_anything(texts[at], fits),
    ensures
        fields_match(texts.update(at, text), values, fits) <==> fields_match(
            texts,
            values,
            fits,
        ) && fits(text, values[slot(texts, values.len(), at)]),
{
    let changed = texts.update(at, text);
    assert forall|i: int| 0 <= i < texts.len() implies is_rest(#[trigger] texts[i]) == is_rest(
        #[trigger] changed[i],
    ) by {}
    lemma_same_rest_at(texts, changed);
    lemma_rest_at(texts);
    if fields_match(changed, values, fits) {
        assert forall|i: int| 0 <= i < texts.len() && Some(i) != rest_at(texts) implies fits(
            #[trigger] texts[i],
            values[slot(texts, values.len(), i)],
        ) by {
            assert(fits(changed[i], values[slot(changed, values.len(), i)]));
        }
        assert(fits(changed[at], values[slot(changed, values.len(), at)]));
    }
    if fields_match(texts, values, fits) && fits(
        text,
        values[slot(texts, values.len(), at)],
    ) {
        assert forall|i: int| 0 <= i < changed.len() && Some(i) != rest_at(changed) implies fits(
            #[trigger] changed[i],
            values[slot(changed, values.len(), i)],
        ) by {
            assert(fits(texts[i], values[slot(texts, values.len(), i)]));
        }
    }
}

/// A split matches the same values: for an arm whose whole pattern is a tuple struct pattern
/// with the binding as one of its fields, a value is matched by one of the new arms just where
/// it was matched by the arm that is split, and by no two of them.
pub proof fn law_split_matches_the_same_values<V>(
    tree: Seq<ElementView>,
    arm_pat: int,
    ident: int,
    ty: TypeView,
    value: Value<V>,
    fits: spec_fn(Seq<PieceView>, V) -> bool,
    open: spec_fn(V) -> Value<V>,
)
    requires
        tuple_struct_context(tree, arm_pat, ident) is Some,
        // The binding is itself a field, and matches anything.
        children(tree, arm_pat, Class::Pat)[first_holding(
            tree,
            children(tree, arm_pat, Class::Pat),
            ident,
        ).unwrap()] == ident,
        !is_rest(text_of(tree, ident)),
        fits_anything(text_of(tree, ident), fits),
        // The patterns are those of the type of the value that it binds.
        is_told_apart(ty, fits),
        reads_patterns(expanded_patterns(ty).unwrap(), fits, open),
        pat_matches(tuple_struct_pattern(tree, arm_pat), value, fits) ==> is_of_type(
            ty,
            open(value_bound(tree, arm_pat, ident, value)),
        ),
    ensures
        ({
            let new = split_patterns(tree, arm_pat, ident, expanded_patterns(ty).unwrap());
            &&& pat_matches(tuple_struct_pattern(tree, arm_pat), value, fits) <==> exists|i: int|
                0 <= i < new.len() && pat_matches(#[trigger] new[i], value, fits)
            &&& forall|i: int, j: int|
                0 <= i < j < new.len() ==> !(pat_matches(#[trigger] new[i], value, fits)
                    && pat_matches(#[trigger] new[j], value, fits))
        }),
{
    let fields = children(tree, arm_pat, Class::Pat);
    let at = first_holding(tree, fields, ident).unwrap();
    let texts = fields.map_values(|field: int| text_of(tree, field));
    let patterns = expanded_patterns(ty).unwrap();
    let new = split_patterns(tree, arm_pat, ident, patterns);
    let old = tuple_struct_pattern(tree, arm_pat);
    law_field_holds_the_binding(tree, arm_pat, ident);
    assert(texts[at] == text_of(tree, ident));
    if let Value::Made { path: own, fields: FieldValues::Tuple(values) } = value {
        let there = values[slot(texts, values.len(), at)];
        assert forall|i: int| 0 <= i < patterns.len() implies pat_matches(
            #[trigger] new[i],
            value,
            fits,
        ) == (pat_matches(old, value, fits) && pat_matches(
            patterns[i],
            open(there),
            fits,
        )) by {
            law_other_fields_stay(tree, arm_pat, ident, patterns[i]);
            lemma_expansion_is_no_rest(ty, fits, i);
            lemma_one_text_differs(texts, at, patterns[i].text(), values, fits);
            assert(fits(patterns[i].text(), there) == pat_matches(
                patterns[i],
                open(there),
                fits,
            ));
        }
        law_expansion_is_complete(ty, open(there), fits);
        if pat_matches(old, value, fits) {
            let i = choose|i: int|
                0 <= i < patterns.len() && pat_matches(
                    #[trigger] patterns[i],
                    open(there),
                    fits,
                );
            assert(pat_matches(new[i], value, fits));
        }
        assert forall|i: int, j: int| 0 <= i < j < new.len() implies !(pat_matches(
            #[trigger] new[i],
            value,
            fits,
        ) && pat_matches(#[trigger] new[j], value, fits)) by {
            let _ = (patterns[i], patterns[j]);
        }
    } else {
        assert forall|i: int| 0 <= i < patterns.len() implies !pat_matches(
            #[trigger] new[i],
            value,
            fits,
        ) by {
            law_other_fields_stay(tree, arm_pat, ident, patterns[i]);
        }
    }
}

/// A field of a record pattern, read as its name and its pattern. Without a name of its own it
/// goes by that of the binding, which stands last in it.
pub open spec fn record_field(tree: Seq<ElementView>, field: int) -> RecordPatFieldView {
    let pat = match first_child(tree, field, Class::Pat) {
        Some(pat) => text_of(tree, pat),
        None => Seq::empty(),
    };
    RecordPatFieldView {
        name: match first_child(tree, field, Class::Kind(SyntaxKind::NameRef)) {
            Some(name) => chars(text_of(tree, name)),
            None => pat.last().text,
        },
        pat: Some(pat),
    }
}

/// The explicit fields of a record pattern.
pub open spec fn record_fields(tree: Seq<ElementView>, pat: int) -> Seq<int> {
    match first_child(tree, pat, Class::Kind(SyntaxKind::RecordPatFieldList)) {
        Some(list) => children(tree, list, Class::Kind(SyntaxKind::RecordPatField)),
        None => Seq::empty(),
    }
}

/// The pattern of the arm, read as its path, its fields and whether there is a rest.
pub open spec fn record_pattern(tree: Seq<ElementView>, pat: int) -> PatView {
    PatView::Record {
        path: text_of(
            tree,
            first_child(tree, pat, Class::Kind(SyntaxKind::Path)).unwrap(),
        ),
        named: record_fields(tree, pat).map_values(|field: int| record_field(tree, field)),
        rest: match first_child(tree, pat, Class::Kind(SyntaxKind::RecordPatFieldList)) {
            Some(list) => first_child(tree, list, Class::Kind(SyntaxKind::RestPat)) is Some,
            None => false,
        },
    }
}

/// Whether the value, where it is made with the path of the record pattern, has the fields that
/// the pattern names, and no others where the pattern has no rest.
pub open spec fn has_named_fields<V>(pat: PatView, value: Value<V>) -> bool {
    match (pat, value) {
        (
            PatView::Record { path, named, rest },
            Value::Made { path: own, fields: FieldValues::Record(values) },
        ) => chars(path) == own ==> {
            &&& forall|i: int|
                0 <= i < named.len() ==> values.dom().contains((#[trigger] named[i]).name)
            &&& !rest ==> forall|name: Seq<char>| #[trigger]
                values.dom().contains(name) ==> exists|i: int|
                    0 <= i < named.len() && (#[trigger] named[i]).name == name
        },
        _ => true,
    }
}

/// Whether the binding is the pattern of the field at `at` of the arm's own record pattern, the
/// field that the split is about, and every other explicit field matches anything.
pub open spec fn is_own_named_field<V>(
    tree: Seq<ElementView>,
    arm_pat: int,
    ident: int,
    at: int,
    fits: spec_fn(Seq<PieceView>, V) -> bool,
) -> bool {
    let fields = record_fields(tree, arm_pat);
    &&& 0 <= at < fields.len()
    &&& first_child(tree, fields[at], Class::Pat) == Some(ident)
    &&& match record_context(tree, arm_pat, ident) {
        Some(ReplacementContextView::Record { outer_path: _, field_name }) => name_of_field_with(
            tree,
            fields[at],
            ident,
        ) == Some(field_name),
        _ => false,
    }
    &&& forall|i: int|
        0 <= i < fields.len() ==> fits_anything(
            named_text(record_field(tree, #[trigger] fields[i])),
            fits,
        )
}

/// A split matches the same values: for an arm whose whole pattern is a record pattern with the
/// binding as the pattern of one of its fields and nothing in the others that could fail to
/// match, a value is matched by one of the new arms just where it was matched by the arm that is
/// split, and by no two of them.
pub proof fn law_record_split_matches_the_same_values<V>(
    tree: Seq<ElementView>,
    arm_pat: int,
    ident: int,
    at: int,
    ty: TypeView,
    value: Value<V>,
    fits: spec_fn(Seq<PieceView>, V) -> bool,
    open: spec_fn(V) -> Value<V>,
)
    requires
        is_own_named_field(tree, arm_pat, ident, at, fits),
        has_named_fields(record_pattern(tree, arm_pat), value),
        // The patterns are those of the type of the value that it binds.
        is_told_apart(ty, fits),
        reads_patterns(expanded_patterns(ty).unwrap(), fits, open),
        pat_matches(record_pattern(tree, arm_pat), value, fits) ==> is_of_type(
            ty,
            open(named_value_bound(tree, arm_pat, at, value)),
        ),
    ensures
        ({
            let new = named_split_patterns(tree, arm_pat, ident, expanded_patterns(ty).unwrap());
            &&& pat_matches(record_pattern(tree, arm_pat), value, fits) <==> exists|i: int|
                0 <= i < new.len() && pat_matches(#[trigger] new[i], value, fits)
            &&& forall|i: int, j: int|
                0 <= i < j < new.len() ==> !(pat_matches(#[trigger] new[i], value, fits)
                    && pat_matches(#[trigger] new[j], value, fits))
        }),
{
    let fields = record_fields(tree, arm_pat);
    let old = record_pattern(tree, arm_pat);
    let patterns = expanded_patterns(ty).unwrap();
    let new = named_split_patterns(tree, arm_pat, ident, patterns);
    let name = record_field(tree, fields[at]).name;
    assert(record_context(tree, arm_pat, ident).unwrap()->field_name == name);
    match (old, value) {
        (
            PatView::Record { path, named, rest },
            Value::Made { path: own, fields: FieldValues::Record(values) },
        ) => {
            assert(named[at] == record_field(tree, fields[at]));
            let there = values[name];
            assert(pat_matches(old, value, fits) == (chars(path) == own)) by {
                if chars(path) == own {
                    assert forall|i: int| 0 <= i < named.len() implies values.dom().contains(
                        (#[trigger] named[i]).name,
                    ) && fits(named_text(named[i]), values[named[i].name]) by {
                        assert(named[i] == record_field(tree, fields[i]));
                        assert(fits_anything(named_text(record_field(tree, fields[i])), fits));
                    }
                }
            }
            assert forall|i: int| 0 <= i < patterns.len() implies pat_matches(
                #[trigger] new[i],
                value,
                fits,
            ) == (pat_matches(old, value, fits) && pat_matches(
                patterns[i],
                open(there),
                fits,
            )) by {
                let made = new[i];
                assert(made == PatView::Record {
                    path,
                    named: seq![
                        RecordPatFieldView { name, pat: Some(patterns[i].text()) },
                    ],
                    rest: true,
                });
                let only = seq![RecordPatFieldView { name, pat: Some(patterns[i].text()) }];
                assert(only[0].name == name);
                assert(named_text(only[0]) == patterns[i].text());
                assert(fits(patterns[i].text(), there) == pat_matches(
                    patterns[i],
                    open(there),
                    fits,
                ));
            }
            law_expansion_is_complete(ty, open(there), fits);
            if pat_matches(old, value, fits) {
                let i = choose|i: int|
                    0 <= i < patterns.len() && pat_matches(
                        #[trigger] patterns[i],
                        open(there),
                        fits,
                    );
                assert(pat_matches(new[i], value, fits));
            }
            assert forall|i: int, j: int| 0 <= i < j < new.len() implies !(pat_matches(
                #[trigger] new[i],
                value,
                fits,
            ) && pat_matches(#[trigger] new[j], value, fits)) by {
                let _ = (patterns[i], patterns[j]);
            }
        },
        _ => {
            assert forall|i: int| 0 <= i < patterns.len() implies !pat_matches(
                #[trigger] new[i],
                value,
                fits,
            ) by {}
        },
    }
}

/// What stands in the field of the value that the binding in the field at `at` is matched
/// against.
pub open spec fn named_value_bound<V>(
    tree: Seq<ElementView>,
    arm_pat: int,
    at: int,
    value: Value<V>,
) -> V {
    let values = value->fields->Record_0;
    values[record_field(tree, record_fields(tree, arm_pat)[at]).name]
}

/// The patterns of the new arms for a binding in a field of a record pattern.
pub open spec fn named_split_patterns(
    tree: Seq<ElementView>,
    arm_pat: int,
    ident: int,
    patterns: Seq<PatView>,
) -> Seq<PatView> {
    patterns.map_values(
        |pat: PatView|
            replaced_pattern(
                tree,
                arm_pat,
                pat,
                record_context(tree, arm_pat, ident).unwrap(),
            ),
    )
}

/// A binding that is the whole pattern of its arm matches every value of its type; so do the new
/// arms together, each value by just one of them.
pub proof fn law_bare_split_matches_the_same_values<V>(
    tree: Seq<ElementView>,
    ident: int,
    ty: TypeView,
    value: Value<V>,
    fits: spec_fn(Seq<PieceView>, V) -> bool,
)
    requires
        is_told_apart(ty, fits),
        is_of_type(ty, value),
    ensures
        replacement_context(tree, ident, ident) == Some(ReplacementContextView::Direct),
        ({
            let new = expanded_patterns(ty).unwrap().map_values(
                |pat: PatView|
                    replaced_pattern(tree, ident, pat, ReplacementContextView::Direct),
            );
            &&& exists|i: int| 0 <= i < new.len() && pat_matches(#[trigger] new[i], value, fits)
            &&& forall|i: int, j: int|
                0 <= i < j < new.len() ==> !(pat_matches(#[trigger] new[i], value, fits)
                    && pat_matches(#[trigger] new[j], value, fits))
        }),
{
    let patterns = expanded_patterns(ty).unwrap();
    let new = patterns.map_values(
        |pat: PatView| replaced_pattern(tree, ident, pat, ReplacementContextView::Direct),
    );
    law_expansion_is_complete(ty, value, fits);
    assert(new =~= patterns);
}

/// Whether no two of the texts bind the same name.
pub open spec fn no_name_twice(
    texts: Seq<Seq<PieceView>>,
    binds: spec_fn(Seq<PieceView>) -> Set<Seq<char>>,
) -> bool {
    forall|i: int, j: int|
        0 <= i < j < texts.len() ==> binds(#[trigger] texts[i]).disjoint(binds(#[trigger] texts[j]))
}

/// A new pattern in a field of the arm's own tuple struct pattern binds no name that another
/// field binds, where the names in the replacement differ from those bound there.
pub proof fn law_no_name_is_bound_twice(
    tree: Seq<ElementView>,
    arm_pat: int,
    ident: int,
    replacement: PatView,
    binds: spec_fn(Seq<PieceView>) -> Set<Seq<char>>,
)
    requires
        tuple_struct_context(tree, arm_pat, ident) is Some,
        no_name_twice(tuple_struct_pattern(tree, arm_pat)->TupleStruct_fields, binds),
        forall|i: int|
            0 <= i < children(tree, arm_pat, Class::Pat).len() && Some(i) != first_holding(
                tree,
                children(tree, arm_pat, Class::Pat),
                ident,
            ) ==> binds(
                text_of(tree, #[trigger] children(tree, arm_pat, Class::Pat)[i]),
            ).disjoint(binds(replacement.text())),
    ensures
        ({
            let context = tuple_struct_context(tree, arm_pat, ident).unwrap();
            let new = replaced_pattern(tree, arm_pat, replacement, context);
            no_name_twice(new->TupleStruct_fields, binds)
        }),
{
    law_other_fields_stay(tree, arm_pat, ident, replacement);
    let fields = children(tree, arm_pat, Class::Pat);
    let at = first_holding(tree, fields, ident).unwrap();
    let texts = fields.map_values(|field: int| text_of(tree, field));
    let changed = texts.update(at, replacement.text());
    assert forall|i: int, j: int| 0 <= i < j < changed.len() implies binds(
        #[trigger] changed[i],
    ).disjoint(binds(#[trigger] changed[j])) by {
        let _ = (fields[i], fields[j]);
        assert(binds(texts[i]).disjoint(binds(texts[j])));
    }
}

} // verus!
