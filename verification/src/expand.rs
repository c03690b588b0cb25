//! The patterns that together take the place of a binding.

use crate::pat::{Pat, PatView, RecordPatField, RecordPatFieldView};
use crate::semantics::{Type, TypeView, Variant, VariantFields, VariantFieldsView, VariantView};
use crate::text::{decimal, decimal_string, single, Piece, PieceView};
use vstd::prelude::*;

verus! {

/// The name of the binding for the field at `i` of a variant with fields in round brackets:
/// the suggested name, else `_` and the number of the field.
pub open spec fn binding_name(suggested: Option<Seq<char>>, i: int) -> Seq<char> {
    match suggested {
        Some(name) => name,
        None => seq!['_'] + decimal(i as nat),
    }
}

/// The pattern that matches the variant and binds its fields, if the variant can be named.
pub open spec fn variant_pattern(variant: VariantView) -> Option<PatView> {
    match variant.path {
        Some(name) => {
            let path = seq![PieceView::solid(name)];
            Some(
                match variant.fields {
                    VariantFieldsView::Tuple(names) => PatView::TupleStruct {
                        path,
                        fields: Seq::new(
                            names.len(),
                            |i: int| seq![PieceView::solid(binding_name(names[i], i))],
                        ),
                    },
                    VariantFieldsView::Record(names) => PatView::Record {
                        path,
                        named: Seq::new(
                            names.len(),
                            |i: int| RecordPatFieldView { name: names[i], pat: None },
                        ),
                        rest: false,
                    },
                    VariantFieldsView::Unit => PatView::Path(path),
                },
            )
        },
        None => None,
    }
}

/// The patterns of the type: one for each variant of an enum, in the order of the variants;
/// `true` and `false` for `bool`. There are none where a variant cannot be named, and none for
/// other types.
pub open spec fn expanded_patterns(ty: TypeView) -> Option<Seq<PatView>> {
    match ty {
        TypeView::Enum(variants) => if forall|i: int|
            0 <= i < variants.len() ==> (#[trigger] variants[i]).path is Some {
            Some(Seq::new(variants.len(), |i: int| variant_pattern(variants[i]).unwrap()))
        } else {
            None
        },
        TypeView::Bool => Some(seq![PatView::Literal(true), PatView::Literal(false)]),
        TypeView::Other => None,
    }
}

/// The name of the binding for the field at `i`.
fn name_binding(suggested: &Option<String>, i: usize) -> (name: String)
    ensures
        name@ == binding_name(suggested.deep_view(), i as int),
{
    match suggested {
        Some(name) => name.clone(),
        None => {
            proof {
                reveal_strlit("_");
                assert("_"@ =~= seq!['_']);
            }
            let mut name = "_".to_owned();
            let number = decimal_string(i);
            name.append(number.as_str());
            name
        },
    }
}

/// The pattern that matches the variant and binds its fields.
pub fn variant_pat(variant: &Variant) -> (pat: Option<Pat>)
    ensures
        pat.deep_view() == variant_pattern(variant.deep_view()),
{
    let name = match &variant.path {
        Some(name) => name,
        None => {
            return None;
        },
    };
    let path = single(name.as_str());
    let pat = match &variant.fields {
        VariantFields::Tuple(names) => {
            let ghost wanted = Seq::new(
                names.deep_view().len(),
                |i: int| seq![PieceView::solid(binding_name(names.deep_view()[i], i))],
            );
            let mut fields: Vec<Vec<Piece>> = Vec::new();
            let mut i: usize = 0;
            assert(fields.deep_view() =~= wanted.take(0));
            while i < names.len()
                invariant
                    i <= names.len(),
                    wanted == Seq::new(
                        names.deep_view().len(),
                        |i: int| seq![PieceView::solid(binding_name(names.deep_view()[i], i))],
                    ),
                    fields.deep_view() == wanted.take(i as int),
                decreases names.len() - i,
            {
                let ghost before = fields.deep_view();
                let name = name_binding(&names[i], i);
                fields.push(single(name.as_str()));
                assert(fields.deep_view() =~= before.push(wanted[i as int]));
                assert(wanted.take(i + 1) =~= wanted.take(i as int).push(wanted[i as int]));
                i += 1;
            }
            assert(wanted.take(names.len() as int) =~= wanted);
            Pat::TupleStruct { path, fields }
        },
        VariantFields::Record(names) => {
            let ghost wanted = Seq::new(
                names.deep_view().len(),
                |i: int| RecordPatFieldView { name: names.deep_view()[i], pat: None },
            );
            let mut fields: Vec<RecordPatField> = Vec::new();
            let mut i: usize = 0;
            assert(fields.deep_view() =~= wanted.take(0));
            while i < names.len()
                invariant
                    i <= names.len(),
                    wanted == Seq::new(
                        names.deep_view().len(),
                        |i: int| RecordPatFieldView { name: names.deep_view()[i], pat: None },
                    ),
                    fields.deep_view() == wanted.take(i as int),
                decreases names.len() - i,
            {
                let ghost before = fields.deep_view();
                fields.push(RecordPatField { name: names[i].clone(), pat: None });
                assert(fields.deep_view() =~= before.push(wanted[i as int]));
                assert(wanted.take(i + 1) =~= wanted.take(i as int).push(wanted[i as int]));
                i += 1;
            }
            assert(wanted.take(names.len() as int) =~= wanted);
            Pat::Record { path, named: fields, rest: false }
        },
        VariantFields::Unit => Pat::Path(path),
    };
    Some(pat)
}

/// The patterns that together take the place of a binding of the type.
pub fn generate_expanded_patterns(ty: &Type) -> (patterns: Option<Vec<Pat>>)
    ensures
        patterns.deep_view() == expanded_patterns(ty.deep_view()),
{
    let mut patterns: Vec<Pat> = Vec::new();
    match ty {
        Type::Enum(variants) => {
            let ghost views = variants.deep_view();
            let ghost wanted = Seq::new(
                views.len(),
                |i: int| variant_pattern(views[i]).unwrap(),
            );
            let mut i: usize = 0;
            assert(patterns.deep_view() =~= wanted.take(0));
            while i < variants.len()
                invariant
                    i <= variants.len(),
                    views == variants.deep_view(),
                    ty.deep_view() == TypeView::Enum(views),
                    wanted == Seq::new(
                        views.len(),
                        |i: int| variant_pattern(views[i]).unwrap(),
                    ),
                    patterns.deep_view() == wanted.take(i as int),
                    forall|j: int| 0 <= j < i ==> (#[trigger] views[j]).path is Some,
                decreases variants.len() - i,
            {
                let ghost before = patterns.deep_view();
                assert(views[i as int] == variants[i as int].deep_view());
                match variant_pat(&variants[i]) {
                    Some(pat) => {
                        patterns.push(pat);
                    },
                    None => {
                        return None;
                    },
                }
                assert(patterns.deep_view() =~= before.push(wanted[i as int]));
                assert(wanted.take(i + 1) =~= wanted.take(i as int).push(wanted[i as int]));
                i += 1;
            }
            assert(wanted.take(variants.len() as int) =~= wanted);
        },
        Type::Bool => {
            patterns.push(Pat::Literal(true));
            patterns.push(Pat::Literal(false));
            assert(patterns.deep_view() =~= seq![PatView::Literal(true), PatView::Literal(false)]);
        },
        Type::Other => {
            return None;
        },
    }
    Some(patterns)
}

} // verus!
