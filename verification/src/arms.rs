//! Lists of match arms as they are written.

use crate::pat::{Pat, PatView};
use crate::text::{extend, push_blank, push_solid, spaces, Piece, PieceView};
use crate::tree::{first_child, text_of, Class, ElementView, SyntaxKind, SyntaxTree};
use vstd::prelude::*;

verus! {

/// What a new arm gets for its body.
#[derive(Clone, Copy, Debug, PartialEq, Eq, Structural)]
pub enum ExprFillDefaultMode {
    /// `todo!()`.
    Todo,
    /// `_`.
    Underscore,
    /// The default value of the type; a new arm has none, and gets `todo!()`.
    Default,
}

impl ExprFillDefaultMode {
    /// The body that a new arm gets.
    pub open spec fn body(self) -> Seq<char> {
        match self {
            ExprFillDefaultMode::Todo => seq!['t', 'o', 'd', 'o', '!', '(', ')'],
            ExprFillDefaultMode::Underscore => seq!['_'],
            ExprFillDefaultMode::Default => seq!['t', 'o', 'd', 'o', '!', '(', ')'],
        }
    }

    /// The body that a new arm gets.
    pub fn body_str(self) -> (body: &'static str)
        ensures
            body@ == self.body(),
    {
        proof {
            reveal_strlit("todo!()");
            reveal_strlit("_");
            assert("todo!()"@ =~= seq!['t', 'o', 'd', 'o', '!', '(', ')']);
            assert("_"@ =~= seq!['_']);
        }
        match self {
            ExprFillDefaultMode::Todo => "todo!()",
            ExprFillDefaultMode::Underscore => "_",
            ExprFillDefaultMode::Default => "todo!()",
        }
    }
}

/// What an [`Arm`] stands for.
pub struct ArmView {
    pub text: Seq<PieceView>,
    pub needs_comma: bool,
}

/// An arm as it is written, and whether a comma has to follow it in a list.
#[derive(Debug)]
pub struct Arm {
    pub text: Vec<Piece>,
    pub needs_comma: bool,
}

impl DeepView for Arm {
    type V = ArmView;

    open spec fn deep_view(&self) -> ArmView {
        ArmView { text: self.text.deep_view(), needs_comma: self.needs_comma }
    }
}

/// Whether a comma has to follow the arm: it does not end in one, and its body is not
/// block-like.
pub open spec fn arm_needs_comma(tree: Seq<ElementView>, arm: int) -> bool {
    &&& first_child(tree, arm, Class::Kind(SyntaxKind::Comma)) is None
    &&& match first_child(tree, arm, Class::Expr) {
        Some(body) => !(tree[body].kind is BlockLikeExpr),
        None => true,
    }
}

/// An arm of the file, as it stands there.
pub open spec fn existing_arm(tree: Seq<ElementView>, arm: int) -> ArmView {
    ArmView { text: text_of(tree, arm), needs_comma: arm_needs_comma(tree, arm) }
}

/// A new arm, `pat => body`.
pub open spec fn new_arm(pat: PatView, mode: ExprFillDefaultMode) -> ArmView {
    ArmView {
        text: pat.text() + seq![
            PieceView::blank(seq![' ']),
            PieceView::solid(seq!['=', '>']),
            PieceView::blank(seq![' ']),
            PieceView::solid(mode.body()),
        ],
        needs_comma: true,
    }
}

/// The arms with those of `new` in the place of the one at `i`.
pub open spec fn spliced(arms: Seq<ArmView>, i: int, new: Seq<ArmView>) -> Seq<ArmView> {
    arms.take(i) + new + arms.skip(i + 1)
}

/// The arms on lines of their own, each behind four spaces and with a comma where it needs one.
pub open spec fn arm_lines(arms: Seq<ArmView>) -> Seq<PieceView>
    decreases arms.len(),
{
    if arms.len() == 0 {
        Seq::empty()
    } else {
        let line = arm_lines(arms.drop_last()) + seq![
            PieceView::blank(seq!['\n', ' ', ' ', ' ', ' ']),
        ] + arms.last().text;
        if arms.last().needs_comma {
            line + seq![PieceView::solid(seq![','])]
        } else {
            line
        }
    }
}

/// A list of arms: the lines of the arms in braces.
pub open spec fn arm_list_text(arms: Seq<ArmView>) -> Seq<PieceView> {
    seq![PieceView::solid(seq!['{'])] + arm_lines(arms) + seq![
        PieceView::blank(seq!['\n']),
        PieceView::solid(seq!['}']),
    ]
}

/// A piece of a text that moves to the right by so many levels of four spaces: whitespace that
/// ends a line is lengthened, all else stays.
pub open spec fn indented_piece(piece: PieceView, level: nat) -> PieceView {
    if piece.breaks_line() {
        PieceView { whitespace: true, text: piece.text + spaces(4 * level) }
    } else {
        piece
    }
}

/// A text that moves to the right by so many levels.
pub open spec fn indented(text: Seq<PieceView>, level: nat) -> Seq<PieceView> {
    text.map_values(|piece: PieceView| indented_piece(piece, level))
}

impl Arm {
    /// An arm of the file, as it stands there.
    pub fn existing(tree: &SyntaxTree, arm: usize) -> (written: Arm)
        ensures
            written.deep_view() == existing_arm(tree@, arm as int),
    {
        let has_comma = tree.first_child(arm, Class::Kind(SyntaxKind::Comma)).is_some();
        let block_like = match tree.first_child(arm, Class::Expr) {
            Some(body) => tree.kind(body) == SyntaxKind::BlockLikeExpr,
            None => false,
        };
        Arm { text: tree.text(arm), needs_comma: !has_comma && !block_like }
    }

    /// A new arm, `pat => body`.
    pub fn new(pat: &Pat, mode: ExprFillDefaultMode) -> (written: Arm)
        ensures
            written.deep_view() == new_arm(pat.deep_view(), mode),
    {
        proof {
            reveal_strlit(" ");
            reveal_strlit("=>");
            assert(" "@ =~= seq![' ']);
            assert("=>"@ =~= seq!['=', '>']);
        }
        let mut text = pat.to_text();
        push_blank(&mut text, " ");
        push_solid(&mut text, "=>");
        push_blank(&mut text, " ");
        push_solid(&mut text, mode.body_str());
        assert(text.deep_view() =~= new_arm(pat.deep_view(), mode).text);
        Arm { text, needs_comma: true }
    }
}

/// A list of arms, as it is written.
pub fn match_arm_list(arms: &Vec<Arm>) -> (text: Vec<Piece>)
    ensures
        text.deep_view() == arm_list_text(arms.deep_view()),
{
    proof {
        reveal_strlit("{");
        reveal_strlit("}");
        reveal_strlit("\n");
        reveal_strlit("\n    ");
        reveal_strlit(",");
        assert("{"@ =~= seq!['{']);
        assert("}"@ =~= seq!['}']);
        assert("\n"@ =~= seq!['\n']);
        assert("\n    "@ =~= seq!['\n', ' ', ' ', ' ', ' ']);
        assert(","@ =~= seq![',']);
    }
    let ghost all = arms.deep_view();
    let ghost opening = seq![PieceView::solid(seq!['{'])];
    let mut text: Vec<Piece> = Vec::new();
    push_solid(&mut text, "{");
    let mut i: usize = 0;
    assert(text.deep_view() =~= opening + arm_lines(all.take(0)));
    while i < arms.len()
        invariant
            i <= arms.len(),
            all == arms.deep_view(),
            "\n    "@ == seq!['\n', ' ', ' ', ' ', ' '],
            ","@ == seq![','],
            text.deep_view() == opening + arm_lines(all.take(i as int)),
        decreases arms.len() - i,
    {
        proof {
            let longer = all.take(i + 1);
            assert(longer.drop_last() =~= all.take(i as int));
            assert(longer.last() == arms[i as int].deep_view());
        }
        push_blank(&mut text, "\n    ");
        extend(&mut text, &arms[i].text);
        if arms[i].needs_comma {
            push_solid(&mut text, ",");
        }
        assert(text.deep_view() =~= opening + arm_lines(all.take(i + 1)));
        i += 1;
    }
    assert(all.take(arms.len() as int) =~= all);
    push_blank(&mut text, "\n");
    push_solid(&mut text, "}");
    assert(text.deep_view() =~= arm_list_text(all));
    text
}

fn indentation(level: u8) -> (string: String)
    ensures
        string@ == spaces(4 * level as nat),
{
    proof {
        reveal_strlit("    ");
        assert("    "@ =~= spaces(4));
    }
    let mut string = String::new();
    let mut i: u8 = 0;
    assert(string@ =~= spaces(0));
    while i < level
        invariant
            i <= level,
            "    "@ == spaces(4),
            string@ == spaces(4 * i as nat),
        decreases level - i,
    {
        string.append("    ");
        assert(string@ =~= spaces(4 * (i + 1) as nat));
        i += 1;
    }
    string
}

/// Moves a text to the right by so many levels of four spaces.
pub fn indent(text: &Vec<Piece>, level: u8) -> (moved: Vec<Piece>)
    ensures
        moved.deep_view() == indented(text.deep_view(), level as nat),
{
    let padding = indentation(level);
    let ghost wanted = indented(text.deep_view(), level as nat);
    let mut moved: Vec<Piece> = Vec::new();
    let mut i: usize = 0;
    assert(moved.deep_view() =~= wanted.take(0));
    while i < text.len()
        invariant
            i <= text.len(),
            padding@ == spaces(4 * level as nat),
            wanted == indented(text.deep_view(), level as nat),
            moved.deep_view() == wanted.take(i as int),
        decreases text.len() - i,
    {
        let ghost before = moved.deep_view();
        let mut piece = text[i].copied();
        if text[i].breaks_line() {
            piece.text.append(padding.as_str());
        }
        moved.push(piece);
        assert(moved.deep_view() =~= before.push(wanted[i as int]));
        assert(wanted.take(i + 1) =~= wanted.take(i as int).push(wanted[i as int]));
        i += 1;
    }
    assert(wanted.take(text.len() as int) =~= wanted);
    moved
}

} // verus!
