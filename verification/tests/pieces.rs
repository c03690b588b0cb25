//! The parts that case splitting is made of.

use case_splitting::arms::{indent, match_arm_list, Arm, ExprFillDefaultMode};
use case_splitting::expand::{generate_expanded_patterns, variant_pat};
use case_splitting::pat::{wildcard_pat, Pat, RecordPatField};
use case_splitting::replace::{apply_pattern_replacement, ReplacementContext};
use case_splitting::semantics::{BindingFacts, Place, Semantics, Type, Variant, VariantFields};
use case_splitting::text::{copied, decimal_string, extend, join, single, to_string, Piece};
use case_splitting::tree::{Class, Element, SyntaxKind, SyntaxTree, TextRange};

fn element(kind: SyntaxKind, parent: Option<usize>, range: (usize, usize), text: &str) -> Element {
    let range = TextRange { start: range.0, end: range.1 };
    Element { kind, parent, range, text: text.to_string() }
}

/// The pattern `P(a, b)`.
fn pair() -> Vec<Element> {
    vec![
        element(SyntaxKind::TupleStructPat, None, (0, 7), ""),
        element(SyntaxKind::Path, Some(0), (0, 1), ""),
        element(SyntaxKind::OtherToken, Some(1), (0, 1), "P"),
        element(SyntaxKind::OtherToken, Some(0), (1, 2), "("),
        element(SyntaxKind::IdentPat, Some(0), (2, 3), ""),
        element(SyntaxKind::OtherToken, Some(4), (2, 3), "a"),
        element(SyntaxKind::Comma, Some(0), (3, 4), ","),
        element(SyntaxKind::Whitespace, Some(0), (4, 5), " "),
        element(SyntaxKind::IdentPat, Some(0), (5, 6), ""),
        element(SyntaxKind::OtherToken, Some(8), (5, 6), "b"),
        element(SyntaxKind::OtherToken, Some(0), (6, 7), ")"),
    ]
}

#[test]
fn tree_answers_about_its_elements() {
    let tree = SyntaxTree::new(pair()).unwrap();
    assert_eq!(tree.len(), 11);
    assert_eq!(tree.kind(4), SyntaxKind::IdentPat);
    assert_eq!(tree.parent(0), None);
    assert_eq!(tree.parent(5), Some(4));
    assert_eq!(tree.range(8), TextRange { start: 5, end: 6 });
    assert_eq!(tree.children(0, Class::Pat), vec![4, 8]);
    assert_eq!(tree.children(0, Class::Kind(SyntaxKind::Comma)), vec![6]);
    assert_eq!(tree.children(0, Class::Expr), Vec::<usize>::new());
    assert_eq!(tree.first_child(0, Class::Pat), Some(4));
    assert_eq!(tree.first_child(4, Class::Pat), None);
    assert!(tree.is_within(0, 9));
    assert!(tree.is_within(8, 9));
    assert!(tree.is_within(8, 8));
    assert!(!tree.is_within(4, 9));
    assert!(!tree.is_within(9, 8));
    assert_eq!(to_string(&tree.text(0)), "P(a, b)");
    assert_eq!(to_string(&tree.text(8)), "b");
    let spaces = tree.text(0).iter().filter(|piece| piece.whitespace).count();
    assert_eq!(spaces, 1);
}

#[test]
fn tree_finds_the_shortest_at_an_offset() {
    let tree = SyntaxTree::new(pair()).unwrap();
    assert_eq!(tree.find_node_at_offset(SyntaxKind::IdentPat, 1), None);
    assert_eq!(tree.find_node_at_offset(SyntaxKind::IdentPat, 2), Some(4));
    assert_eq!(tree.find_node_at_offset(SyntaxKind::IdentPat, 3), Some(4));
    assert_eq!(tree.find_node_at_offset(SyntaxKind::IdentPat, 4), None);
    assert_eq!(tree.find_node_at_offset(SyntaxKind::IdentPat, 6), Some(8));
    assert_eq!(tree.find_node_at_offset(SyntaxKind::TupleStructPat, 7), Some(0));
    assert_eq!(tree.find_node_at_offset(SyntaxKind::TupleStructPat, 8), None);
    let nested = vec![
        element(SyntaxKind::ParenPat, None, (0, 5), ""),
        element(SyntaxKind::ParenPat, Some(0), (1, 4), ""),
        element(SyntaxKind::ParenPat, Some(1), (2, 2), ""),
    ];
    let nested = SyntaxTree::new(nested).unwrap();
    assert_eq!(nested.find_node_at_offset(SyntaxKind::ParenPat, 2), Some(1));
    let side_by_side = vec![
        element(SyntaxKind::OtherNode, None, (0, 4), ""),
        element(SyntaxKind::MatchArm, Some(0), (0, 2), ""),
        element(SyntaxKind::MatchArm, Some(0), (2, 4), ""),
    ];
    let side_by_side = SyntaxTree::new(side_by_side).unwrap();
    assert_eq!(side_by_side.find_node_at_offset(SyntaxKind::MatchArm, 2), Some(1));
}

#[test]
fn only_trees_are_taken() {
    assert!(SyntaxTree::new(Vec::new()).is_some());
    let mut second_root = pair();
    second_root[4].parent = None;
    assert!(SyntaxTree::new(second_root).is_none());
    let mut under_token = pair();
    under_token[4].parent = Some(3);
    assert!(SyntaxTree::new(under_token).is_none());
    let mut out_of_order = pair();
    out_of_order[10].parent = Some(4);
    out_of_order[10].range = TextRange { start: 2, end: 3 };
    assert!(SyntaxTree::new(out_of_order).is_none());
    let mut too_wide = pair();
    too_wide[5].range.end = 4;
    assert!(SyntaxTree::new(too_wide).is_none());
    let mut reversed = pair();
    reversed[5].range = TextRange { start: 3, end: 2 };
    assert!(SyntaxTree::new(reversed).is_none());
    let mut after = pair();
    after[4].parent = Some(8);
    assert!(SyntaxTree::new(after).is_none());
}

#[test]
fn kinds_fall_into_classes() {
    assert!(SyntaxKind::Whitespace.is_token());
    assert!(!SyntaxKind::Path.is_token());
    assert!(SyntaxKind::RestPat.is_pat());
    assert!(!SyntaxKind::RecordPatField.is_pat());
    assert!(SyntaxKind::BlockLikeExpr.is_expr());
    assert!(!SyntaxKind::OtherNode.is_expr());
    assert!(Class::Kind(SyntaxKind::Path).has(SyntaxKind::Path));
    assert!(!Class::Kind(SyntaxKind::Path).has(SyntaxKind::PathPat));
    assert!(TextRange { start: 2, end: 4 }.contains(3));
    assert!(!TextRange { start: 2, end: 4 }.contains(4));
}

#[test]
fn numbers_are_written_in_decimal() {
    assert_eq!(decimal_string(0), "0");
    assert_eq!(decimal_string(9), "9");
    assert_eq!(decimal_string(10), "10");
    assert_eq!(decimal_string(1024), "1024");
    assert_eq!(decimal_string(usize::MAX), usize::MAX.to_string());
}

#[test]
fn texts_are_put_together() {
    let mut text = single("a");
    extend(&mut text, &single("b"));
    assert_eq!(to_string(&text), "ab");
    assert_eq!(to_string(&copied(&text)), "ab");
    assert_eq!(to_string(&join(&Vec::new())), "");
    assert_eq!(to_string(&join(&vec![single("a")])), "a");
    assert_eq!(to_string(&join(&vec![single("a"), single("b"), single("c")])), "a, b, c");
    assert!(Piece::blank(" \n ").breaks_line());
    assert!(!Piece::blank("  ").breaks_line());
    assert!(!Piece::solid("\"\n\"").breaks_line());
}

#[test]
fn patterns_are_written() {
    let written = |pat: &Pat| to_string(&pat.to_text());
    assert_eq!(written(&Pat::Literal(true)), "true");
    assert_eq!(written(&Pat::Literal(false)), "false");
    assert_eq!(written(&Pat::Path(single("A::B"))), "A::B");
    let tuple = Pat::TupleStruct { path: single("A"), fields: vec![single("x"), wildcard_pat()] };
    assert_eq!(written(&tuple), "A(x, _)");
    assert_eq!(written(&tuple.copied()), "A(x, _)");
    let named = || {
        vec![
            RecordPatField { name: "a".to_string(), pat: None },
            RecordPatField { name: "b".to_string(), pat: Some(single("true")) },
        ]
    };
    let closed = Pat::Record { path: single("A"), named: named(), rest: false };
    assert_eq!(written(&closed), "A { a, b: true }");
    let open = Pat::Record { path: single("A"), named: named(), rest: true };
    assert_eq!(written(&open.copied()), "A { a, b: true, .. }");
    let only_rest = Pat::Record { path: single("A"), named: Vec::new(), rest: true };
    assert_eq!(written(&only_rest), "A { .. }");
}

#[test]
fn variants_become_patterns() {
    let written = |pat: Option<Pat>| pat.map(|pat| to_string(&pat.to_text()));
    let tuple = |path: Option<&str>| Variant {
        path: path.map(|path| path.to_string()),
        fields: VariantFields::Tuple(vec![None, Some("val".to_string()), None]),
    };
    assert_eq!(written(variant_pat(&tuple(Some("A")))), Some("A(_0, val, _2)".to_string()));
    assert_eq!(written(variant_pat(&tuple(None))), None);
    let many = VariantFields::Tuple((0..12).map(|_| None).collect());
    let many = Variant { path: Some("M".to_string()), fields: many };
    assert_eq!(
        written(variant_pat(&many)),
        Some("M(_0, _1, _2, _3, _4, _5, _6, _7, _8, _9, _10, _11)".to_string())
    );
}

#[test]
fn types_become_patterns() {
    let written = |ty: &Type| {
        generate_expanded_patterns(ty).map(|patterns| {
            patterns.iter().map(|pat| to_string(&pat.to_text())).collect::<Vec<String>>()
        })
    };
    assert_eq!(written(&Type::Bool), Some(vec!["true".to_string(), "false".to_string()]));
    assert_eq!(written(&Type::Other), None);
    assert_eq!(written(&Type::Enum(Vec::new())), Some(Vec::new()));
    let unit = |path: &str| Variant { path: Some(path.to_string()), fields: VariantFields::Unit };
    let two = Type::Enum(vec![unit("A"), unit("B")]);
    assert_eq!(written(&two), Some(vec!["A".to_string(), "B".to_string()]));
    assert!(two.is_splittable());
    assert!(Type::Bool.is_splittable());
    assert!(!Type::Other.is_splittable());
}

#[test]
fn replacement_goes_to_its_place() {
    let tree = SyntaxTree::new(pair()).unwrap();
    let written = |context: &ReplacementContext| {
        let pat = apply_pattern_replacement(&tree, 0, &Pat::Literal(true), context);
        to_string(&pat.to_text())
    };
    assert_eq!(written(&ReplacementContext::Direct), "true");
    let field = |field_index, total_fields| ReplacementContext::TupleStruct {
        outer_path: 1,
        field_index,
        total_fields,
    };
    assert_eq!(written(&field(0, 2)), "P(true, b)");
    assert_eq!(written(&field(1, 2)), "P(a, true)");
    assert_eq!(written(&field(1, 4)), "P(a, true, _, _)");
    let elsewhere = ReplacementContext::TupleStruct {
        outer_path: 8,
        field_index: 1,
        total_fields: 2,
    };
    assert_eq!(written(&elsewhere), "b(_, true)");
    let named = ReplacementContext::Record { outer_path: 1, field_name: "f".to_string() };
    assert_eq!(written(&named), "P { f: true, .. }");
}

#[test]
fn facts_are_found_by_their_first_entry() {
    let facts = |pat, in_module| BindingFacts {
        pat,
        binding_type: Some(Type::Bool),
        pat_type: None,
        in_module,
    };
    let range = TextRange { start: 1, end: 2 };
    let sema = Semantics {
        bindings: vec![facts(3, true), facts(5, true), facts(3, false)],
        places: vec![
            Place { arm_list: 7, range, indent: 1 },
            Place { arm_list: 7, range, indent: 2 },
        ],
    };
    assert!(sema.binding(3).unwrap().in_module);
    assert_eq!(sema.binding(5).unwrap().pat, 5);
    assert!(sema.binding(4).is_none());
    assert_eq!(sema.place(7), Some(Place { arm_list: 7, range, indent: 1 }));
    assert_eq!(sema.place(8), None);
}

#[test]
fn lists_are_written_and_indented() {
    let arm = |pat: &Pat| Arm::new(pat, ExprFillDefaultMode::Todo);
    let open = Arm { text: single("B => {}"), needs_comma: false };
    let list = match_arm_list(&vec![arm(&Pat::Literal(true)), open]);
    assert_eq!(to_string(&list), "{\n    true => todo!(),\n    B => {}\n}");
    assert_eq!(to_string(&match_arm_list(&Vec::new())), "{\n}");
    assert_eq!(to_string(&indent(&list, 0)), to_string(&list));
    let once = to_string(&indent(&list, 1));
    assert_eq!(once, "{\n        true => todo!(),\n        B => {}\n    }");
    let twice = indent(&indent(&list, 1), 2);
    assert_eq!(to_string(&twice), to_string(&indent(&list, 3)));
    assert_eq!(ExprFillDefaultMode::Underscore.body_str(), "_");
}

#[test]
fn indentation_leaves_text_with_line_breaks() {
    let text = vec![Piece::solid("\"a\nb\""), Piece::blank("\n\n  "), Piece::solid("c")];
    assert_eq!(to_string(&indent(&text, 1)), "\"a\nb\"\n\n      c");
}

#[test]
fn each_bool_is_matched_once() {
    let patterns = generate_expanded_patterns(&Type::Bool).unwrap();
    for value in [true, false] {
        let is_own = |pat: &&Pat| matches!(pat, Pat::Literal(own) if *own == value);
        assert_eq!(patterns.iter().filter(is_own).count(), 1);
    }
}

#[test]
fn each_variant_is_matched_once() {
    let named = |path: &str, fields| Variant { path: Some(path.to_string()), fields };
    let ty = Type::Enum(vec![
        named("A", VariantFields::Unit),
        named("B", VariantFields::Tuple(vec![None])),
        named("C", VariantFields::Record(vec!["f".to_string()])),
    ]);
    let patterns = generate_expanded_patterns(&ty).unwrap();
    for (value, path) in ["A", "B", "C"].into_iter().enumerate() {
        let matching: Vec<usize> = patterns
            .iter()
            .enumerate()
            .filter(|(_, pat)| match pat {
                Pat::Path(own) => to_string(own) == path,
                Pat::TupleStruct { path: own, .. } => to_string(own) == path,
                Pat::Record { path: own, .. } => to_string(own) == path,
                Pat::Literal(_) => false,
            })
            .map(|(i, _)| i)
            .collect();
        assert_eq!(matching, vec![value]);
    }
}

#[test]
fn names_in_a_pattern_differ() {
    let names = vec![Some("val".to_string()), None, Some("val1".to_string()), None];
    let variant = Variant { path: Some("A".to_string()), fields: VariantFields::Tuple(names) };
    match variant_pat(&variant) {
        Some(Pat::TupleStruct { fields, .. }) => {
            let names: Vec<String> = fields.iter().map(to_string).collect();
            assert_eq!(names, vec!["val", "_1", "val1", "_3"]);
        }
        other => panic!("{other:?}"),
    }
}
