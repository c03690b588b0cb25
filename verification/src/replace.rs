//! How a binding is nested in the pattern of its arm, and what the pattern becomes when another
//! takes the place of the binding.

use crate::pat::{wildcard, wildcard_pat, Pat, PatView, RecordPatField, RecordPatFieldView};
use crate::text::{chars, to_string, Piece, PieceView};
use crate::tree::{
    children, first_child, id, ids, is_within, text_of, Class, ElementView, SyntaxKind, SyntaxTree,
};
use vstd::prelude::*;

verus! {

/// What a [`ReplacementContext`] stands for.
pub enum ReplacementContextView {
    Direct,
    TupleStruct { outer_path: int, field_index: int, total_fields: int },
    Record { outer_path: int, field_name: Seq<char> },
}

/// How a binding is nested in the pattern of its arm.
#[derive(Debug)]
pub enum ReplacementContext {
    /// Direct replacement: the binding is the entire pattern of the arm.
    Direct,
    /// Nested replacement: the binding is inside a tuple struct pattern, in the field of that
    /// number.
    TupleStruct { outer_path: usize, field_index: usize, total_fields: usize },
    /// Nested replacement: the binding is inside a record pattern, in the field of that name.
    Record { outer_path: usize, field_name: String },
}

impl DeepView for ReplacementContext {
    type V = ReplacementContextView;

    open spec fn deep_view(&self) -> ReplacementContextView {
        match *self {
            ReplacementContext::Direct => ReplacementContextView::Direct,
            ReplacementContext::TupleStruct {
                outer_path,
                field_index,
                total_fields,
            } => ReplacementContextView::TupleStruct {
                outer_path: outer_path as int,
                field_index: field_index as int,
                total_fields: total_fields as int,
            },
            ReplacementContext::Record { outer_path, field_name } => {
                ReplacementContextView::Record {
                    outer_path: outer_path as int,
                    field_name: field_name@,
                }
            },
        }
    }
}

/// The number of the first of the nodes that holds `below`.
pub open spec fn first_holding(tree: Seq<ElementView>, nodes: Seq<int>, below: int) -> Option<int>
    decreases nodes.len(),
{
    if nodes.len() == 0 {
        None
    } else {
        match first_holding(tree, nodes.drop_last(), below) {
            Some(i) => Some(i),
            None => if is_within(tree, nodes.last(), below) {
                Some(nodes.len() - 1)
            } else {
                None
            },
        }
    }
}

/// How `ident` stands in `node`, where that is a tuple struct pattern with a path and a field
/// that holds `ident`.
pub open spec fn tuple_struct_context(tree: Seq<ElementView>, node: int, ident: int) -> Option<
    ReplacementContextView,
> {
    let fields = children(tree, node, Class::Pat);
    match (
        first_child(tree, node, Class::Kind(SyntaxKind::Path)),
        first_holding(tree, fields, ident),
    ) {
        (Some(outer_path), Some(field_index)) if tree[node].kind is TupleStructPat => Some(
            ReplacementContextView::TupleStruct {
                outer_path,
                field_index,
                total_fields: fields.len() as int,
            },
        ),
        _ => None,
    }
}

/// The name of the field of a record pattern, where the field has one and `ident` stands in its
/// pattern.
pub open spec fn name_of_field_with(tree: Seq<ElementView>, field: int, ident: int) -> Option<
    Seq<char>,
> {
    match (
        first_child(tree, field, Class::Pat),
        first_child(tree, field, Class::Kind(SyntaxKind::NameRef)),
    ) {
        (Some(pat), Some(name)) if is_within(tree, pat, ident) => Some(chars(text_of(tree, name))),
        _ => None,
    }
}

/// The name of the first of the fields that has a name and has `ident` in its pattern.
pub open spec fn first_field_name_with(
    tree: Seq<ElementView>,
    fields: Seq<int>,
    ident: int,
) -> Option<Seq<char>>
    decreases fields.len(),
{
    if fields.len() == 0 {
        None
    } else {
        match first_field_name_with(tree, fields.drop_last(), ident) {
            Some(name) => Some(name),
            None => name_of_field_with(tree, fields.last(), ident),
        }
    }
}

/// How `ident` stands in `node`, where that is a record pattern with a path and a field that
/// has a name and has `ident` in its pattern.
pub open spec fn record_context(tree: Seq<ElementView>, node: int, ident: int) -> Option<
    ReplacementContextView,
> {
    match (
        first_child(tree, node, Class::Kind(SyntaxKind::Path)),
        first_child(tree, node, Class::Kind(SyntaxKind::RecordPatFieldList)),
    ) {
        (Some(outer_path), Some(list)) if tree[node].kind is RecordPat => {
            let fields = children(tree, list, Class::Kind(SyntaxKind::RecordPatField));
            match first_field_name_with(tree, fields, ident) {
                Some(field_name) => Some(ReplacementContextView::Record { outer_path, field_name }),
                None => None,
            }
        },
        _ => None,
    }
}

/// What `node`, which stands above `ident`, says of how `ident` is nested: which of its fields
/// holds `ident`; `None` where it leaves that to the nodes above it.
pub open spec fn context_at(tree: Seq<ElementView>, node: int, ident: int) -> Option<
    ReplacementContextView,
> {
    if tuple_struct_context(tree, node, ident) is Some {
        tuple_struct_context(tree, node, ident)
    } else {
        record_context(tree, node, ident)
    }
}

/// What the first node says that says anything, of `node` and those above it up to the pattern
/// of the arm.
pub open spec fn context_from(
    tree: Seq<ElementView>,
    node: int,
    ident: int,
    arm_pat: int,
) -> Option<ReplacementContextView>
    decreases node,
{
    if context_at(tree, node, ident) is Some {
        context_at(tree, node, ident)
    } else if node == arm_pat {
        None
    } else {
        match tree[node].parent {
            Some(parent) => if 0 <= parent < node {
                context_from(tree, parent, ident, arm_pat)
            } else {
                None
            },
            None => None,
        }
    }
}

/// How `ident` is nested in the pattern of the arm: not at all where it is that pattern; else
/// as the nearest node above it says that says anything, up to that pattern.
pub open spec fn replacement_context(tree: Seq<ElementView>, ident: int, arm_pat: int) -> Option<
    ReplacementContextView,
> {
    if ident == arm_pat {
        Some(ReplacementContextView::Direct)
    } else {
        match tree[ident].parent {
            Some(parent) => context_from(tree, parent, ident, arm_pat),
            None => None,
        }
    }
}

fn position_holding(tree: &SyntaxTree, nodes: &Vec<usize>, below: usize) -> (found: Option<usize>)
    requires
        below < tree@.len(),
    ensures
        id(found) == first_holding(tree@, ids(nodes@), below as int),
        found matches Some(i) ==> i < nodes.len(),
{
    let ghost all = ids(nodes@);
    let mut found: Option<usize> = None;
    let mut i: usize = 0;
    while i < nodes.len()
        invariant
            i <= nodes.len(),
            below < tree@.len(),
            all == ids(nodes@),
            id(found) == first_holding(tree@, all.take(i as int), below as int),
            found matches Some(j) ==> j < i,
        decreases nodes.len() - i,
    {
        assert(all.take(i + 1).drop_last() =~= all.take(i as int));
        if found.is_none() && tree.is_within(nodes[i], below) {
            found = Some(i);
        }
        i += 1;
    }
    assert(all.take(nodes.len() as int) =~= all);
    found
}

fn find_tuple_struct_context(tree: &SyntaxTree, node: usize, ident: usize) -> (found: Option<
    ReplacementContext,
>)
    requires
        node < tree@.len(),
        ident < tree@.len(),
    ensures
        found.deep_view() == tuple_struct_context(tree@, node as int, ident as int),
{
    if tree.kind(node) != SyntaxKind::TupleStructPat {
        return None;
    }
    let outer_path = tree.first_child(node, Class::Kind(SyntaxKind::Path))?;
    let fields = tree.children(node, Class::Pat);
    let field_index: usize = position_holding(tree, &fields, ident)?;
    Some(ReplacementContext::TupleStruct { outer_path, field_index, total_fields: fields.len() })
}

fn find_field_name(tree: &SyntaxTree, field: usize, ident: usize) -> (name: Option<String>)
    requires
        ident < tree@.len(),
    ensures
        name.deep_view() == name_of_field_with(tree@, field as int, ident as int),
{
    let pat = tree.first_child(field, Class::Pat)?;
    if !tree.is_within(pat, ident) {
        return None;
    }
    let name = tree.first_child(field, Class::Kind(SyntaxKind::NameRef))?;
    Some(to_string(&tree.text(name)))
}

fn find_record_context(tree: &SyntaxTree, node: usize, ident: usize) -> (found: Option<
    ReplacementContext,
>)
    requires
        node < tree@.len(),
        ident < tree@.len(),
    ensures
        found.deep_view() == record_context(tree@, node as int, ident as int),
{
    if tree.kind(node) != SyntaxKind::RecordPat {
        return None;
    }
    let outer_path = tree.first_child(node, Class::Kind(SyntaxKind::Path))?;
    let list = tree.first_child(node, Class::Kind(SyntaxKind::RecordPatFieldList))?;
    let fields = tree.children(list, Class::Kind(SyntaxKind::RecordPatField));
    let ghost all = ids(fields@);
    let mut found: Option<String> = None;
    let mut i: usize = 0;
    while i < fields.len()
        invariant
            i <= fields.len(),
            ident < tree@.len(),
            all == ids(fields@),
            found.deep_view() == first_field_name_with(tree@, all.take(i as int), ident as int),
        decreases fields.len() - i,
    {
        assert(all.take(i + 1).drop_last() =~= all.take(i as int));
        if found.is_none() {
            found = find_field_name(tree, fields[i], ident);
        }
        i += 1;
    }
    assert(all.take(fields.len() as int) =~= all);
    match found {
        Some(field_name) => Some(ReplacementContext::Record { outer_path, field_name }),
        None => None,
    }
}

/// Finds how the identifier pattern is nested in the pattern of the arm: walks up from it, unless
/// it is that pattern.
pub fn find_replacement_context(tree: &SyntaxTree, ident_pat: usize, arm_pat: usize) -> (found:
    Option<ReplacementContext>)
    requires
        ident_pat < tree@.len(),
    ensures
        found.deep_view() == replacement_context(tree@, ident_pat as int, arm_pat as int),
{
    if ident_pat == arm_pat {
        return Some(ReplacementContext::Direct);
    }
    let mut current: usize = tree.parent(ident_pat)?;
    loop
        invariant
            current < tree@.len(),
            ident_pat != arm_pat,
            ident_pat < tree@.len(),
            replacement_context(tree@, ident_pat as int, arm_pat as int) == context_from(
                tree@,
                current as int,
                ident_pat as int,
                arm_pat as int,
            ),
        decreases current,
    {
        if let Some(context) = find_tuple_struct_context(tree, current, ident_pat) {
            return Some(context);
        }
        if let Some(context) = find_record_context(tree, current, ident_pat) {
            return Some(context);
        }
        if current == arm_pat {
            return None;
        }
        match tree.parent(current) {
            Some(parent) => {
                current = parent;
            },
            None => {
                return None;
            },
        }
    }
}

/// Whether the pattern of the arm is a tuple struct pattern whose path reads as `outer_path`.
pub open spec fn has_path(tree: Seq<ElementView>, arm_pat: int, outer_path: int) -> bool {
    &&& tree[arm_pat].kind is TupleStructPat
    &&& match first_child(tree, arm_pat, Class::Kind(SyntaxKind::Path)) {
        Some(path) => chars(text_of(tree, path)) == chars(text_of(tree, outer_path)),
        None => false,
    }
}

/// The field at `i` of the tuple struct pattern that takes the place of the arm's pattern: the
/// replacement in its place; elsewhere what the arm's pattern has there, where that has the
/// same path and the field; else a wildcard.
pub open spec fn replaced_field(
    tree: Seq<ElementView>,
    arm_pat: int,
    outer_path: int,
    field_index: int,
    replacement: Seq<PieceView>,
    i: int,
) -> Seq<PieceView> {
    let originals = children(tree, arm_pat, Class::Pat);
    if i == field_index {
        replacement
    } else if has_path(tree, arm_pat, outer_path) && 0 <= i < originals.len() {
        text_of(tree, originals[i])
    } else {
        wildcard()
    }
}

/// What the pattern of the arm becomes when `replacement` takes the place of the binding.
pub open spec fn replaced_pattern(
    tree: Seq<ElementView>,
    arm_pat: int,
    replacement: PatView,
    context: ReplacementContextView,
) -> PatView {
    match context {
        ReplacementContextView::Direct => replacement,
        ReplacementContextView::TupleStruct { outer_path, field_index, total_fields } => {
            PatView::TupleStruct {
                path: text_of(tree, outer_path),
                fields: Seq::new(
                    total_fields as nat,
                    |i: int|
                        replaced_field(
                            tree,
                            arm_pat,
                            outer_path,
                            field_index,
                            replacement.text(),
                            i,
                        ),
                ),
            }
        },
        ReplacementContextView::Record { outer_path, field_name } => PatView::Record {
            path: text_of(tree, outer_path),
            named: seq![RecordPatFieldView { name: field_name, pat: Some(replacement.text()) }],
            rest: true,
        },
    }
}

fn check_path(tree: &SyntaxTree, arm_pat: usize, outer_path: usize) -> (same: bool)
    requires
        arm_pat < tree@.len(),
    ensures
        same == has_path(tree@, arm_pat as int, outer_path as int),
{
    if tree.kind(arm_pat) != SyntaxKind::TupleStructPat {
        return false;
    }
    match tree.first_child(arm_pat, Class::Kind(SyntaxKind::Path)) {
        Some(path) => {
            let original = to_string(&tree.text(path));
            let outer = to_string(&tree.text(outer_path));
            original == outer
        },
        None => false,
    }
}

/// The pattern of the arm with `replacement` in the place of the binding.
pub fn apply_pattern_replacement(
    tree: &SyntaxTree,
    original_arm_pat: usize,
    replacement_pattern: &Pat,
    context: &ReplacementContext,
) -> (pat: Pat)
    requires
        original_arm_pat < tree@.len(),
    ensures
        pat.deep_view() == replaced_pattern(
            tree@,
            original_arm_pat as int,
            replacement_pattern.deep_view(),
            context.deep_view(),
        ),
{
    match context {
        ReplacementContext::Direct => replacement_pattern.copied(),
        ReplacementContext::TupleStruct { outer_path, field_index, total_fields } => {
            let keep = check_path(tree, original_arm_pat, *outer_path);
            let originals = tree.children(original_arm_pat, Class::Pat);
            let ghost wanted = Seq::new(
                *total_fields as nat,
                |i: int|
                    replaced_field(
                        tree@,
                        original_arm_pat as int,
                        *outer_path as int,
                        *field_index as int,
                        replacement_pattern.deep_view().text(),
                        i,
                    ),
            );
            let mut fields: Vec<Vec<Piece>> = Vec::new();
            let mut i: usize = 0;
            assert(fields.deep_view() =~= wanted.take(0));
            assert(ids(originals@).len() == originals.len());
            while i < *total_fields
                invariant
                    i <= *total_fields,
                    original_arm_pat < tree@.len(),
                    keep == has_path(tree@, original_arm_pat as int, *outer_path as int),
                    ids(originals@) == children(tree@, original_arm_pat as int, Class::Pat),
                    wanted == Seq::new(
                        *total_fields as nat,
                        |i: int|
                            replaced_field(
                                tree@,
                                original_arm_pat as int,
                                *outer_path as int,
                                *field_index as int,
                                replacement_pattern.deep_view().text(),
                                i,
                            ),
                    ),
                    fields.deep_view() == wanted.take(i as int),
                decreases *total_fields - i,
            {
                let ghost before = fields.deep_view();
                if i == *field_index {
                    fields.push(replacement_pattern.to_text());
                } else if keep && i < originals.len() {
                    assert(ids(originals@)[i as int] == originals[i as int]);
                    fields.push(tree.text(originals[i]));
                } else {
                    fields.push(wildcard_pat());
                }
                assert(fields.deep_view() =~= before.push(wanted[i as int]));
                assert(wanted.take(i + 1) =~= wanted.take(i as int).push(wanted[i as int]));
                i += 1;
            }
            assert(wanted.take(*total_fields as int) =~= wanted);
            Pat::TupleStruct { path: tree.text(*outer_path), fields }
        },
        ReplacementContext::Record { outer_path, field_name } => {
            let mut fields: Vec<RecordPatField> = Vec::new();
            let replaced = replacement_pattern.to_text();
            fields.push(RecordPatField { name: field_name.clone(), pat: Some(replaced) });
            assert(fields.deep_view() =~= seq![
                RecordPatFieldView {
                    name: field_name@,
                    pat: Some(replacement_pattern.deep_view().text()),
                },
            ]);
            Pat::Record { path: tree.text(*outer_path), named: fields, rest: true }
        },
    }
}

} // verus!
