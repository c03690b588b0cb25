//! Splitting the match arm at the cursor.

use crate::arms::{
    arm_list_text, existing_arm, indent, indented, match_arm_list, new_arm, spliced, Arm, ArmView,
    ExprFillDefaultMode,
};
use crate::expand::{expanded_patterns, generate_expanded_patterns};
use crate::pat::{Pat, PatView};
use crate::replace::{
    apply_pattern_replacement, find_replacement_context, replaced_pattern, replacement_context,
    ReplacementContext, ReplacementContextView,
};
use crate::semantics::{Semantics, SemanticsView};
use crate::text::{chars, to_string};
use crate::tree::{
    children, first_child, id, ids, node_at_offset, Class, ElementView, SyntaxKind, SyntaxTree,
    TextRange,
};
use vstd::prelude::*;

verus! {

/// What an [`AssistContext`] stands for.
pub struct AssistContextView {
    pub tree: Seq<ElementView>,
    pub offset: int,
    pub sema: SemanticsView,
    pub expr_fill_default: ExprFillDefaultMode,
}

/// A file with the cursor in it, and what is known of the file.
#[derive(Debug)]
pub struct AssistContext {
    pub tree: SyntaxTree,
    /// The byte offset of the cursor.
    pub offset: usize,
    pub sema: Semantics,
    /// What new arms get for their bodies.
    pub expr_fill_default: ExprFillDefaultMode,
}

impl DeepView for AssistContext {
    type V = AssistContextView;

    open spec fn deep_view(&self) -> AssistContextView {
        AssistContextView {
            tree: self.tree@,
            offset: self.offset as int,
            sema: self.sema.deep_view(),
            expr_fill_default: self.expr_fill_default,
        }
    }
}

/// The identifier pattern at the cursor and how it is nested in the pattern of its arm, where
/// the cursor is in that pattern and the binding is of an enum or of `bool`.
pub open spec fn pattern_to_split(ctx: AssistContextView, arm_pat: int) -> Option<
    (int, ReplacementContextView),
> {
    match node_at_offset(ctx.tree, SyntaxKind::IdentPat, ctx.offset) {
        Some(ident) => if ctx.tree[arm_pat].range.holds(ctx.offset) && has_splittable_binding(
            ctx.sema,
            ident,
        ) {
            match replacement_context(ctx.tree, ident, arm_pat) {
                Some(context) => Some((ident, context)),
                None => None,
            }
        } else {
            None
        },
        None => None,
    }
}

/// Whether the identifier pattern is known to bind an enum or a `bool`.
pub open spec fn has_splittable_binding(sema: SemanticsView, ident: int) -> bool {
    match sema.binding(ident) {
        Some(facts) => match facts.binding_type {
            Some(ty) => ty.is_splittable(),
            None => false,
        },
        None => false,
    }
}

/// The patterns for the type that the identifier pattern matches, where the pattern is known to
/// stand in a module and there are any.
pub open spec fn patterns_for(sema: SemanticsView, ident: int) -> Option<Seq<PatView>> {
    match sema.binding(ident) {
        Some(facts) => match facts.pat_type {
            Some(ty) => match expanded_patterns(ty) {
                Some(patterns) => if facts.in_module && patterns.len() > 0 {
                    Some(patterns)
                } else {
                    None
                },
                None => None,
            },
            None => None,
        },
        None => None,
    }
}

/// The number of the first of the nodes that is `node`.
pub open spec fn position(nodes: Seq<int>, node: int) -> Option<int>
    decreases nodes.len(),
{
    if nodes.len() == 0 {
        None
    } else {
        match position(nodes.drop_last(), node) {
            Some(i) => Some(i),
            None => if nodes.last() == node {
                Some(nodes.len() - 1)
            } else {
                None
            },
        }
    }
}

/// The arms of a list.
pub open spec fn arms_of(tree: Seq<ElementView>, arm_list: int) -> Seq<int> {
    children(tree, arm_list, Class::Kind(SyntaxKind::MatchArm))
}

/// What a [`Split`] stands for.
pub struct SplitView {
    pub arm_list: int,
    pub arm_index: int,
    pub arm_pat: int,
    pub pat: int,
    pub context: ReplacementContextView,
    pub patterns: Seq<PatView>,
}

/// What is to be split: the binding `pat` in the pattern `arm_pat` of the arm of that number in
/// the list, and the patterns that take its place.
#[derive(Debug)]
pub struct Split {
    pub arm_list: usize,
    pub arm_index: usize,
    pub arm_pat: usize,
    pub pat: usize,
    pub context: ReplacementContext,
    pub patterns: Vec<Pat>,
}

impl DeepView for Split {
    type V = SplitView;

    open spec fn deep_view(&self) -> SplitView {
        SplitView {
            arm_list: self.arm_list as int,
            arm_index: self.arm_index as int,
            arm_pat: self.arm_pat as int,
            pat: self.pat as int,
            context: self.context.deep_view(),
            patterns: self.patterns.deep_view(),
        }
    }
}

/// What is to be split at the cursor: the arm there stands in a list and has no guard, and
/// there are patterns to take the place of the binding at the cursor.
pub open spec fn split_at(ctx: AssistContextView) -> Option<SplitView> {
    match node_at_offset(ctx.tree, SyntaxKind::MatchArm, ctx.offset) {
        Some(arm) => split_of_arm(ctx, arm),
        None => None,
    }
}

/// What is to be split in the arm.
pub open spec fn split_of_arm(ctx: AssistContextView, arm: int) -> Option<SplitView> {
    match (ctx.tree[arm].parent, first_child(ctx.tree, arm, Class::Pat)) {
        (Some(arm_list), Some(arm_pat)) => {
            let guard = first_child(ctx.tree, arm, Class::Kind(SyntaxKind::MatchGuard));
            match (position(arms_of(ctx.tree, arm_list), arm), pattern_to_split(ctx, arm_pat)) {
                (Some(arm_index), Some((pat, context))) if ctx.tree[arm_list].kind is MatchArmList
                    && guard is None => match patterns_for(ctx.sema, pat) {
                    Some(patterns) => Some(
                        SplitView { arm_list, arm_index, arm_pat, pat, context, patterns },
                    ),
                    None => None,
                },
                _ => None,
            }
        },
        _ => None,
    }
}

/// The arms that take the place of the one that is split: one for each of the patterns.
pub open spec fn new_arms(ctx: AssistContextView, split: SplitView) -> Seq<ArmView> {
    Seq::new(
        split.patterns.len(),
        |i: int|
            new_arm(
                replaced_pattern(ctx.tree, split.arm_pat, split.patterns[i], split.context),
                ctx.expr_fill_default,
            ),
    )
}

/// The arms of the list, as they stand in the file.
pub open spec fn old_arms(ctx: AssistContextView, split: SplitView) -> Seq<ArmView> {
    arms_of(ctx.tree, split.arm_list).map_values(|arm: int| existing_arm(ctx.tree, arm))
}

/// All arms of the list after the split.
pub open spec fn all_arms(ctx: AssistContextView, split: SplitView) -> Seq<ArmView> {
    spliced(old_arms(ctx, split), split.arm_index, new_arms(ctx, split))
}

/// What a [`TextEdit`] stands for.
pub struct TextEditView {
    pub range: TextRange,
    pub text: Seq<char>,
}

/// Text that takes the place of what stands in a range of the file.
#[derive(Debug)]
pub struct TextEdit {
    pub range: TextRange,
    pub text: String,
}

impl DeepView for TextEdit {
    type V = TextEditView;

    open spec fn deep_view(&self) -> TextEditView {
        TextEditView { range: self.range, text: self.text@ }
    }
}

/// The change that the split makes: the list with the new arms takes the place of the old one,
/// where that has a place of its own in the file.
pub open spec fn split_edit(ctx: AssistContextView, split: SplitView) -> Option<TextEditView> {
    match ctx.sema.place(split.arm_list) {
        Some(place) => Some(
            TextEditView {
                range: place.range,
                text: chars(
                    indented(arm_list_text(all_arms(ctx, split)), place.indent as nat),
                ),
            },
        ),
        None => None,
    }
}

/// What sort of change an assist makes.
#[derive(Clone, Copy, Debug, PartialEq, Eq, Structural)]
pub enum AssistKind {
    RefactorRewrite,
}

/// What an [`Assist`] stands for.
pub struct AssistView {
    pub name: Seq<char>,
    pub kind: AssistKind,
    pub label: Seq<char>,
    pub target: TextRange,
    pub edit: Option<TextEditView>,
}

/// A change that is offered at the cursor.
#[derive(Debug)]
pub struct Assist {
    pub name: &'static str,
    pub kind: AssistKind,
    pub label: &'static str,
    /// What the change is about.
    pub target: TextRange,
    /// The change; `None` where nothing can be changed.
    pub edit: Option<TextEdit>,
}

impl DeepView for Assist {
    type V = AssistView;

    open spec fn deep_view(&self) -> AssistView {
        AssistView {
            name: self.name@,
            kind: self.kind,
            label: self.label@,
            target: self.target,
            edit: self.edit.deep_view(),
        }
    }
}

/// What is offered at the cursor.
pub open spec fn split_assist(ctx: AssistContextView) -> Option<AssistView> {
    match split_at(ctx) {
        Some(split) => Some(
            AssistView {
                name: "split_match_arm"@,
                kind: AssistKind::RefactorRewrite,
                label: "Case splitting on match arms"@,
                target: ctx.tree[split.pat].range,
                edit: split_edit(ctx, split),
            },
        ),
        None => None,
    }
}

/// Finds the identifier pattern at the cursor and how it is nested in the pattern of its arm.
pub fn find_pattern_to_split(arm_pat: usize, ctx: &AssistContext) -> (found: Option<
    (usize, ReplacementContext),
>)
    requires
        arm_pat < ctx.tree@.len(),
    ensures
        match found {
            Some((pat, context)) => pattern_to_split(ctx.deep_view(), arm_pat as int) == Some(
                (pat as int, context.deep_view()),
            ),
            None => pattern_to_split(ctx.deep_view(), arm_pat as int) is None,
        },
        found matches Some((pat, context)) ==> pat < ctx.tree@.len(),
{
    let ident_pat = ctx.tree.find_node_at_offset(SyntaxKind::IdentPat, ctx.offset)?;
    if !ctx.tree.range(arm_pat).contains(ctx.offset) {
        return None;
    }
    let facts = ctx.sema.binding(ident_pat)?;
    match &facts.binding_type {
        Some(ty) => {
            if !ty.is_splittable() {
                return None;
            }
        },
        None => {
            return None;
        },
    }
    let context = find_replacement_context(&ctx.tree, ident_pat, arm_pat)?;
    Some((ident_pat, context))
}

fn find_patterns(sema: &Semantics, pat: usize) -> (patterns: Option<Vec<Pat>>)
    ensures
        patterns.deep_view() == patterns_for(sema.deep_view(), pat as int),
{
    let facts = sema.binding(pat)?;
    match &facts.pat_type {
        Some(ty) => {
            let patterns = generate_expanded_patterns(ty)?;
            assert(patterns.deep_view().len() == patterns.len());
            if !facts.in_module || patterns.len() == 0 {
                return None;
            }
            Some(patterns)
        },
        None => None,
    }
}

fn find_position(nodes: &Vec<usize>, node: usize) -> (found: Option<usize>)
    ensures
        id(found) == position(ids(nodes@), node as int),
        found matches Some(i) ==> i < nodes.len(),
{
    let ghost all = ids(nodes@);
    let mut found: Option<usize> = None;
    let mut i: usize = 0;
    while i < nodes.len()
        invariant
            i <= nodes.len(),
            all == ids(nodes@),
            id(found) == position(all.take(i as int), node as int),
            found matches Some(j) ==> j < i,
        decreases nodes.len() - i,
    {
        assert(all.take(i + 1).drop_last() =~= all.take(i as int));
        if found.is_none() && nodes[i] == node {
            found = Some(i);
        }
        i += 1;
    }
    assert(all.take(nodes.len() as int) =~= all);
    found
}

/// Finds what is to be split at the cursor.
pub fn find_split(ctx: &AssistContext) -> (split: Option<Split>)
    ensures
        split.deep_view() == split_at(ctx.deep_view()),
        split matches Some(split) ==> {
            &&& split.arm_pat < ctx.tree@.len()
            &&& split.pat < ctx.tree@.len()
            &&& split.arm_index < arms_of(ctx.tree@, split.arm_list as int).len()
        },
{
    let arm = ctx.tree.find_node_at_offset(SyntaxKind::MatchArm, ctx.offset)?;
    let arm_list = ctx.tree.parent(arm)?;
    if ctx.tree.kind(arm_list) != SyntaxKind::MatchArmList {
        return None;
    }
    let arms = ctx.tree.children(arm_list, Class::Kind(SyntaxKind::MatchArm));
    assert(ids(arms@).len() == arms.len());
    let arm_index: usize = find_position(&arms, arm)?;
    if ctx.tree.first_child(arm, Class::Kind(SyntaxKind::MatchGuard)).is_some() {
        return None;
    }
    let arm_pat = ctx.tree.first_child(arm, Class::Pat)?;
    let (pat, context) = find_pattern_to_split(arm_pat, ctx)?;
    let patterns = find_patterns(&ctx.sema, pat)?;
    Some(Split { arm_list, arm_index, arm_pat, pat, context, patterns })
}

/// The arms of the file from the one at `from` up to the one at `to`, as they stand there.
fn write_existing_arms(tree: &SyntaxTree, arms: &Vec<usize>, from: usize, to: usize) -> (written:
    Vec<Arm>)
    requires
        from <= to <= arms.len(),
    ensures
        written.deep_view() == ids(arms@).map_values(
            |arm: int| existing_arm(tree@, arm),
        ).subrange(from as int, to as int),
{
    let ghost wanted = ids(arms@).map_values(|arm: int| existing_arm(tree@, arm));
    let mut written: Vec<Arm> = Vec::new();
    let mut i: usize = from;
    assert(written.deep_view() =~= wanted.subrange(from as int, from as int));
    while i < to
        invariant
            from <= i <= to <= arms.len(),
            wanted == ids(arms@).map_values(|arm: int| existing_arm(tree@, arm)),
            written.deep_view() == wanted.subrange(from as int, i as int),
        decreases to - i,
    {
        let ghost before = written.deep_view();
        written.push(Arm::existing(tree, arms[i]));
        assert(written.deep_view() =~= before.push(wanted[i as int]));
        assert(wanted.subrange(from as int, i + 1) =~= wanted.subrange(from as int, i as int).push(
            wanted[i as int],
        ));
        i += 1;
    }
    written
}

/// The arms that take the place of the one that is split.
fn write_new_arms(ctx: &AssistContext, split: &Split) -> (written: Vec<Arm>)
    requires
        split.arm_pat < ctx.tree@.len(),
    ensures
        written.deep_view() == new_arms(ctx.deep_view(), split.deep_view()),
{
    let ghost wanted = new_arms(ctx.deep_view(), split.deep_view());
    let mut written: Vec<Arm> = Vec::new();
    let mut i: usize = 0;
    assert(written.deep_view() =~= wanted.take(0));
    while i < split.patterns.len()
        invariant
            i <= split.patterns.len(),
            split.arm_pat < ctx.tree@.len(),
            wanted == new_arms(ctx.deep_view(), split.deep_view()),
            written.deep_view() == wanted.take(i as int),
        decreases split.patterns.len() - i,
    {
        let ghost before = written.deep_view();
        let pat = apply_pattern_replacement(
            &ctx.tree,
            split.arm_pat,
            &split.patterns[i],
            &split.context,
        );
        written.push(Arm::new(&pat, ctx.expr_fill_default));
        assert(written.deep_view() =~= before.push(wanted[i as int]));
        assert(wanted.take(i + 1) =~= wanted.take(i as int).push(wanted[i as int]));
        i += 1;
    }
    assert(wanted.take(split.patterns.len() as int) =~= wanted);
    written
}

/// The change that the split makes.
pub fn edit_for(ctx: &AssistContext, split: &Split) -> (edit: Option<TextEdit>)
    requires
        split.arm_pat < ctx.tree@.len(),
        split.arm_index < arms_of(ctx.tree@, split.arm_list as int).len(),
    ensures
        edit.deep_view() == split_edit(ctx.deep_view(), split.deep_view()),
{
    let place = ctx.sema.place(split.arm_list)?;
    let old = ctx.tree.children(split.arm_list, Class::Kind(SyntaxKind::MatchArm));
    assert(ids(old@).len() == old.len());
    let mut arms = write_existing_arms(&ctx.tree, &old, 0, split.arm_index);
    let mut new = write_new_arms(ctx, split);
    let mut rest = write_existing_arms(&ctx.tree, &old, split.arm_index + 1, old.len());
    let ghost parts = (arms.deep_view(), new.deep_view(), rest.deep_view());
    arms.append(&mut new);
    assert(arms.deep_view() =~= parts.0 + parts.1);
    arms.append(&mut rest);
    assert(arms.deep_view() =~= parts.0 + parts.1 + parts.2);
    assert(arms.deep_view() =~= all_arms(ctx.deep_view(), split.deep_view()));
    let list = match_arm_list(&arms);
    let moved = indent(&list, place.indent);
    Some(TextEdit { range: place.range, text: to_string(&moved) })
}

/// Splits the arm at the cursor: the arm with a binding of an enum or of `bool` becomes one arm
/// for each of the type's values, and the other arms stay as they are.
pub fn split_match_arm(ctx: &AssistContext) -> (assist: Option<Assist>)
    ensures
        assist.deep_view() == split_assist(ctx.deep_view()),
{
    let split = find_split(ctx)?;
    let target = ctx.tree.range(split.pat);
    let edit = edit_for(ctx, &split);
    Some(
        Assist {
            name: "split_match_arm",
            kind: AssistKind::RefactorRewrite,
            label: "Case splitting on match arms",
            target,
            edit,
        },
    )
}

} // verus!
