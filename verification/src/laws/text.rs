//! What holds of texts: how pieces, patterns and lists of arms are written.

use crate::arms::{
    arm_lines, arm_list_text, arm_needs_comma, existing_arm, indented, new_arm, spliced, ArmView,
    ExprFillDefaultMode,
};
use crate::laws::tree::{
    are_tokens_of, is_body, is_made_of, law_first_child_is_the_first, law_text_is_all_tokens,
};
use crate::pat::{rest_pat, wildcard, PatView, RecordPatFieldView};
use crate::text::{chars, comma_separated, decimal, digit, spaces, PieceView};
use crate::tree::{first_child, Class, ElementView, SyntaxKind};
use vstd::prelude::*;

verus! {

/// A piece that is not whitespace.
pub open spec fn word(text: Seq<char>) -> PieceView {
    PieceView { whitespace: false, text }
}

/// A piece of whitespace.
pub open spec fn gap(text: Seq<char>) -> PieceView {
    PieceView { whitespace: true, text }
}

proof fn lemma_chars_add_up(first: Seq<PieceView>, second: Seq<PieceView>)
    ensures
        chars(first + second) == chars(first) + chars(second),
    decreases second.len(),
{
    if second.len() == 0 {
        assert(first + second =~= first);
        assert(chars(first + second) =~= chars(first) + chars(second));
    } else {
        let both = first + second;
        lemma_chars_add_up(first, second.drop_last());
        assert(both.drop_last() =~= first + second.drop_last());
        assert(both.last() == second.last());
        assert(chars(both) =~= chars(first) + chars(second));
    }
}

/// The characters of a text are those of its pieces, one piece after another: a text of one
/// piece reads as the piece, and two texts one behind the other read as both.
pub proof fn law_pieces_are_read_in_order(
    piece: PieceView,
    first: Seq<PieceView>,
    second: Seq<PieceView>,
)
    ensures
        chars(Seq::<PieceView>::empty()).len() == 0,
        chars(seq![piece]) == piece.text,
        chars(first + second) == chars(first) + chars(second),
{
    lemma_chars_add_up(first, second);
    let one = seq![piece];
    assert(one.drop_last() =~= Seq::<PieceView>::empty());
    assert(chars(one.drop_last()) =~= Seq::<char>::empty());
    assert(chars(one) =~= piece.text);
}

proof fn lemma_commas(first: Seq<Seq<PieceView>>, second: Seq<Seq<PieceView>>)
    requires
        first.len() > 0,
        second.len() > 0,
    ensures
        comma_separated(first + second) == comma_separated(first) + seq![word(","@), gap(" "@)]
            + comma_separated(second),
    decreases second.len(),
{
    reveal_strlit(",");
    reveal_strlit(" ");
    assert(","@ =~= seq![',']);
    assert(" "@ =~= seq![' ']);
    let both = first + second;
    assert(both.drop_last() =~= first + second.drop_last());
    assert(both.last() == second.last());
    if second.len() == 1 {
        assert(both.drop_last() =~= first);
    } else {
        lemma_commas(first, second.drop_last());
    }
    assert(comma_separated(both) =~= comma_separated(first) + seq![word(","@), gap(" "@)]
        + comma_separated(second));
}

/// A list of texts is written with a comma and a space between each two of them and nowhere
/// else: one text alone stands as it is, and two lists are written one behind the other with a
/// comma and a space between them.
pub proof fn law_commas_stand_between(
    item: Seq<PieceView>,
    first: Seq<Seq<PieceView>>,
    second: Seq<Seq<PieceView>>,
)
    requires
        first.len() > 0,
        second.len() > 0,
    ensures
        comma_separated(Seq::<Seq<PieceView>>::empty()).len() == 0,
        comma_separated(seq![item]) == item,
        comma_separated(first + second) == comma_separated(first) + seq![word(","@), gap(" "@)]
            + comma_separated(second),
{
    lemma_commas(first, second);
}

/// Whether the part stands in the text, unbroken.
pub open spec fn stands_in(part: Seq<PieceView>, text: Seq<PieceView>) -> bool {
    exists|before: Seq<PieceView>, behind: Seq<PieceView>|
        text == #[trigger] (before + part + behind)
}

/// Each of the texts stands in the list that is written of them.
pub proof fn law_every_item_is_written(items: Seq<Seq<PieceView>>, i: int)
    requires
        0 <= i < items.len(),
    ensures
        stands_in(items[i], comma_separated(items)),
{
    let text = comma_separated(items);
    let front = items.take(i);
    let back = items.skip(i + 1);
    let one = seq![items[i]];
    assert(items =~= front + one + back);
    let sep = seq![word(","@), gap(" "@)];
    let before = if i == 0 {
        Seq::<PieceView>::empty()
    } else {
        comma_separated(front) + sep
    };
    let behind = if back.len() == 0 {
        Seq::<PieceView>::empty()
    } else {
        sep + comma_separated(back)
    };
    if i > 0 {
        lemma_commas(front, one);
    } else {
        assert(front + one =~= one);
    }
    if back.len() > 0 {
        lemma_commas(front + one, back);
    } else {
        assert(items =~= front + one);
    }
    assert(text =~= before + items[i] + behind);
}

/// So many spaces are so many characters, each of them a space.
pub proof fn law_spaces_are_spaces(count: nat)
    ensures
        spaces(count).len() == count,
        forall|i: int| 0 <= i < count ==> #[trigger] spaces(count)[i] == ' ',
{
}

/// The number that is read from decimal digits.
pub open spec fn number_read(digits: Seq<char>) -> int
    decreases digits.len(),
{
    if digits.len() == 0 {
        0
    } else {
        10 * number_read(digits.drop_last()) + (digits.last() as int - '0' as int)
    }
}

/// A number is written in decimal: what is written is made of digits, has no zero in front but
/// for that of the number zero, and is read as the number.
pub proof fn law_numbers_are_read_back(n: nat)
    ensures
        number_read(decimal(n)) == n,
        decimal(n).len() >= 1,
        forall|i: int| 0 <= i < decimal(n).len() ==> '0' <= #[trigger] decimal(n)[i] <= '9',
        decimal(n)[0] == '0' ==> n == 0 && decimal(n).len() == 1,
    decreases n,
{
    let low = n % 10;
    assert(digit(low) as int == '0' as int + low) by {
        let digits = seq!['0', '1', '2', '3', '4', '5', '6', '7', '8', '9'];
        assert(digits[0] == '0' && digits[1] == '1' && digits[2] == '2' && digits[3] == '3'
            && digits[4] == '4' && digits[5] == '5' && digits[6] == '6' && digits[7] == '7'
            && digits[8] == '8' && digits[9] == '9');
    }
    if n >= 10 {
        law_numbers_are_read_back(n / 10);
        let high = decimal(n / 10);
        assert(decimal(n) =~= high.push(digit(low)));
        assert(decimal(n).drop_last() =~= high);
        assert(decimal(n)[0] == high[0]);
        assert forall|i: int| 0 <= i < decimal(n).len() implies '0' <= #[trigger] decimal(n)[i]
            <= '9' by {
            if i < high.len() {
                assert(decimal(n)[i] == high[i]);
            }
        }
    } else {
        let one = decimal(n);
        assert(one.drop_last() =~= Seq::<char>::empty());
        assert(number_read(one.drop_last()) == 0);
    }
}

/// A field of a record pattern is written as its name, followed by a colon, a space and its
/// pattern where it has one.
pub proof fn law_field_is_written(field: RecordPatFieldView)
    ensures
        match field.pat {
            Some(pat) => field.text() == seq![word(field.name), word(":"@), gap(" "@)] + pat,
            None => field.text() == seq![word(field.name)],
        },
        match field.pat {
            Some(pat) => chars(field.text()) == field.name + ": "@ + chars(pat),
            None => chars(field.text()) == field.name,
        },
{
    reveal_strlit(":");
    reveal_strlit(" ");
    reveal_strlit(": ");
    assert(":"@ =~= seq![':']);
    assert(" "@ =~= seq![' ']);
    assert(": "@ =~= ":"@ + " "@);
    let name = seq![word(field.name)];
    let colon = seq![word(":"@)];
    let blank = seq![gap(" "@)];
    law_pieces_are_read_in_order(word(field.name), name, colon);
    law_pieces_are_read_in_order(word(":"@), name + colon, blank);
    law_pieces_are_read_in_order(gap(" "@), name, colon);
    if let Some(pat) = field.pat {
        let front = seq![word(field.name), word(":"@), gap(" "@)];
        assert(front =~= name + colon + blank);
        law_pieces_are_read_in_order(word(":"@), front, pat);
        assert(chars(field.text()) =~= field.name + ": "@ + chars(pat));
    }
}

/// What stands between the braces of a record pattern: its fields, and two dots behind them
/// where there is a rest.
pub open spec fn between_braces(named: Seq<RecordPatFieldView>, rest: bool) -> Seq<
    Seq<PieceView>,
> {
    Seq::new(
        named.len() + (if rest {
            1nat
        } else {
            0nat
        }),
        |i: int|
            if i < named.len() {
                named[i].text()
            } else {
                seq![word(".."@)]
            },
    )
}

/// A pattern is written as `true` or `false`, as its path alone, as its path and its fields in
/// round brackets, or as its path and its fields in braces.
pub proof fn law_pattern_is_written(pat: PatView)
    ensures
        match pat {
            PatView::Literal(value) => pat.text() == seq![
                word(
                    if value {
                        "true"@
                    } else {
                        "false"@
                    },
                ),
            ],
            PatView::Path(path) => pat.text() == path,
            PatView::TupleStruct { path, fields } => pat.text() == path + seq![word("("@)]
                + comma_separated(fields) + seq![word(")"@)],
            PatView::Record { path, named, rest } => pat.text() == path + seq![
                gap(" "@),
                word("{"@),
                gap(" "@),
            ] + comma_separated(between_braces(named, rest)) + seq![gap(" "@), word("}"@)],
        },
{
    reveal_strlit("true");
    reveal_strlit("false");
    reveal_strlit("(");
    reveal_strlit(")");
    reveal_strlit(" ");
    reveal_strlit("{");
    reveal_strlit("}");
    reveal_strlit("..");
    assert("true"@ =~= seq!['t', 'r', 'u', 'e']);
    assert("false"@ =~= seq!['f', 'a', 'l', 's', 'e']);
    assert("("@ =~= seq!['(']);
    assert(")"@ =~= seq![')']);
    assert(" "@ =~= seq![' ']);
    assert("{"@ =~= seq!['{']);
    assert("}"@ =~= seq!['}']);
    assert(".."@ =~= seq!['.', '.']);
    if let PatView::Record { path, named, rest } = pat {
        let texts = named.map_values(|field: RecordPatFieldView| field.text());
        let items = if rest {
            texts.push(rest_pat())
        } else {
            texts
        };
        assert(items =~= between_braces(named, rest));
    }
}

/// The wildcard is written `_`.
pub proof fn law_wildcard_is_written()
    ensures
        wildcard() == seq![word("_"@)],
{
    reveal_strlit("_");
    assert("_"@ =~= seq!['_']);
}

/// Each field of a tuple struct pattern stands in what is written, behind the path, and so does
/// each pattern of a named field.
pub proof fn law_fields_stand_in_the_pattern(pat: PatView, i: int)
    ensures
        match pat {
            PatView::TupleStruct { path, fields } => 0 <= i < fields.len() ==> stands_in(
                fields[i],
                pat.text(),
            ),
            PatView::Record { path, named, rest } => 0 <= i < named.len() ==> match named[i].pat {
                Some(own) => stands_in(own, pat.text()),
                None => true,
            },
            _ => true,
        },
{
    law_pattern_is_written(pat);
    match pat {
        PatView::TupleStruct { path, fields } => if 0 <= i < fields.len() {
            law_every_item_is_written(fields, i);
            let (before, behind) = choose|before: Seq<PieceView>, behind: Seq<PieceView>|
                comma_separated(fields) == #[trigger] (before + fields[i] + behind);
            let opening = path + seq![word("("@)];
            let closing = seq![word(")"@)];
            assert(pat.text() =~= (opening + before) + fields[i] + (behind + closing));
        },
        PatView::Record { path, named, rest } => if 0 <= i < named.len() {
            let items = between_braces(named, rest);
            law_every_item_is_written(items, i);
            let (before, behind) = choose|before: Seq<PieceView>, behind: Seq<PieceView>|
                comma_separated(items) == #[trigger] (before + items[i] + behind);
            law_field_is_written(named[i]);
            if let Some(own) = named[i].pat {
                let front = seq![word(named[i].name), word(":"@), gap(" "@)];
                let opening = path + seq![gap(" "@), word("{"@), gap(" "@)];
                let closing = seq![gap(" "@), word("}"@)];
                assert(items[i] == front + own);
                assert(pat.text() =~= (opening + before + front) + own + (behind + closing));
            }
        },
        _ => {},
    }
}

/// A new arm has `todo!()` for its body, or `_` where that is asked for.
pub proof fn law_body_is_as_asked(mode: ExprFillDefaultMode)
    ensures
        mode.body() == if mode == ExprFillDefaultMode::Underscore {
            "_"@
        } else {
            "todo!()"@
        },
{
    reveal_strlit("_");
    reveal_strlit("todo!()");
    assert("_"@ =~= seq!['_']);
    assert("todo!()"@ =~= seq!['t', 'o', 'd', 'o', '!', '(', ')']);
}

/// A new arm is written as its pattern, an arrow between two spaces and its body, has no guard,
/// and wants a comma.
pub proof fn law_new_arm_is_written(pat: PatView, mode: ExprFillDefaultMode)
    ensures
        new_arm(pat, mode).needs_comma,
        new_arm(pat, mode).text == pat.text() + seq![
            gap(" "@),
            word("=>"@),
            gap(" "@),
            word(
                if mode == ExprFillDefaultMode::Underscore {
                    "_"@
                } else {
                    "todo!()"@
                },
            ),
        ],
{
    law_body_is_as_asked(mode);
    reveal_strlit(" ");
    reveal_strlit("=>");
    assert(" "@ =~= seq![' ']);
    assert("=>"@ =~= seq!['=', '>']);
}

/// An arm of the file is written with all tokens that stand within it, in their order, those of
/// its guard too, and with no others.
pub proof fn law_existing_arm_is_written(tree: Seq<ElementView>, arm: int)
    ensures
        exists|tokens: Seq<int>| #[trigger]
            are_tokens_of(tree, arm, tokens) && is_made_of(
                tree,
                tokens,
                existing_arm(tree, arm).text,
            ),
        forall|tokens: Seq<int>| #[trigger]
            are_tokens_of(tree, arm, tokens) ==> is_made_of(
                tree,
                tokens,
                existing_arm(tree, arm).text,
            ),
{
    law_text_is_all_tokens(tree, arm);
}

/// Whether the element is a comma of the arm's own.
pub open spec fn is_own_comma(tree: Seq<ElementView>, arm: int, i: int) -> bool {
    0 <= i < tree.len() && tree[i].parent == Some(arm) && tree[i].kind == SyntaxKind::Comma
}

/// Whether the element is the body of the arm: the first expression in it.
pub open spec fn is_own_body(tree: Seq<ElementView>, arm: int, i: int) -> bool {
    &&& 0 <= i < tree.len()
    &&& tree[i].parent == Some(arm)
    &&& is_body(tree[i].kind)
    &&& forall|j: int|
        0 <= j < i && (#[trigger] tree[j]).parent == Some(arm) ==> !is_body(tree[j].kind)
}

/// An arm of the file wants a comma just where it has none of its own and its body is not
/// block-like.
pub proof fn law_comma_is_wanted(tree: Seq<ElementView>, arm: int)
    ensures
        existing_arm(tree, arm).needs_comma == arm_needs_comma(tree, arm),
        arm_needs_comma(tree, arm) <==> {
            &&& forall|i: int| !#[trigger] is_own_comma(tree, arm, i)
            &&& forall|i: int| #[trigger]
                is_own_body(tree, arm, i) ==> tree[i].kind != SyntaxKind::BlockLikeExpr
        },
{
    let comma = Class::Kind(SyntaxKind::Comma);
    law_first_child_is_the_first(tree, arm, comma);
    law_first_child_is_the_first(tree, arm, Class::Expr);
    let body = first_child(tree, arm, Class::Expr);
    if let Some(found) = first_child(tree, arm, comma) {
        assert(is_own_comma(tree, arm, found));
    }
    match body {
        Some(found) => {
            assert(is_own_body(tree, arm, found));
            assert forall|i: int| #[trigger] is_own_body(tree, arm, i) implies i == found by {
                let _ = (tree[i], tree[found]);
            }
        },
        None => {},
    }
}

proof fn lemma_lines(first: Seq<ArmView>, second: Seq<ArmView>)
    ensures
        arm_lines(first + second) == arm_lines(first) + arm_lines(second),
    decreases second.len(),
{
    let both = first + second;
    if second.len() == 0 {
        assert(both =~= first);
        assert(arm_lines(both) =~= arm_lines(first) + arm_lines(second));
    } else {
        lemma_lines(first, second.drop_last());
        assert(both.drop_last() =~= first + second.drop_last());
        assert(both.last() == second.last());
        assert(arm_lines(both) =~= arm_lines(first) + arm_lines(second));
    }
}

/// Arms are written line by line: one arm is written behind a line break and four spaces, with
/// a comma behind it just where it wants one, and two lists of arms one behind the other; a list
/// stands in braces, of which the closing one is on a line of its own.
pub proof fn law_arms_are_written_line_by_line(
    arm: ArmView,
    first: Seq<ArmView>,
    second: Seq<ArmView>,
)
    ensures
        arm_lines(Seq::<ArmView>::empty()).len() == 0,
        arm_lines(seq![arm]) == seq![gap("\n    "@)] + arm.text + (if arm.needs_comma {
            seq![word(","@)]
        } else {
            Seq::<PieceView>::empty()
        }),
        arm_lines(first + second) == arm_lines(first) + arm_lines(second),
        arm_list_text(first) == seq![word("{"@)] + arm_lines(first) + seq![
            gap("\n"@),
            word("}"@),
        ],
{
    reveal_strlit("\n    ");
    reveal_strlit("\n");
    reveal_strlit(",");
    reveal_strlit("{");
    reveal_strlit("}");
    assert("\n    "@ =~= seq!['\n', ' ', ' ', ' ', ' ']);
    assert("\n"@ =~= seq!['\n']);
    assert(","@ =~= seq![',']);
    assert("{"@ =~= seq!['{']);
    assert("}"@ =~= seq!['}']);
    lemma_lines(first, second);
    let one = seq![arm];
    assert(one.drop_last() =~= Seq::<ArmView>::empty());
    assert(arm_lines(one.drop_last()) =~= Seq::<PieceView>::empty());
    assert(arm_lines(one) =~= seq![gap("\n    "@)] + arm.text + (if arm.needs_comma {
        seq![word(","@)]
    } else {
        Seq::<PieceView>::empty()
    }));
}

/// To put new arms in the place of one is to leave those before it in front of them and those
/// behind it behind them.
pub proof fn law_splice_is_in_place(
    before: Seq<ArmView>,
    arm: ArmView,
    behind: Seq<ArmView>,
    new: Seq<ArmView>,
)
    ensures
        spliced(before + seq![arm] + behind, before.len() as int, new) == before + new + behind,
{
    let arms = before + seq![arm] + behind;
    assert(arms.take(before.len() as int) =~= before);
    assert(arms.skip(before.len() as int + 1) =~= behind);
}

/// Whether the piece is whitespace with a line break anywhere in it.
pub open spec fn has_line_break(piece: PieceView) -> bool {
    piece.whitespace && exists|i: int| 0 <= i < piece.text.len() && piece.text[i] == '\n'
}

/// A text that moves to the right keeps its pieces; those of whitespace with a line break
/// anywhere in them get four spaces for each level at their ends, and no other changes.
pub proof fn law_lines_move_to_the_right(text: Seq<PieceView>, level: nat)
    ensures
        indented(text, level).len() == text.len(),
        forall|i: int|
            0 <= i < text.len() ==> {
                let moved = #[trigger] indented(text, level)[i];
                if has_line_break(text[i]) {
                    &&& moved.whitespace
                    &&& moved.text.len() == text[i].text.len() + 4 * level
                    &&& forall|k: int|
                        0 <= k < moved.text.len() ==> #[trigger] moved.text[k] == if k
                            < text[i].text.len() {
                            text[i].text[k]
                        } else {
                            ' '
                        }
                } else {
                    moved == text[i]
                }
            },
{
    assert forall|i: int| 0 <= i < text.len() implies has_line_break(text[i])
        == (#[trigger] text[i]).breaks_line() by {
        if has_line_break(text[i]) {
            let k = choose|k: int| 0 <= k < text[i].text.len() && text[i].text[k] == '\n';
            assert(text[i].text.contains('\n'));
        }
    }
}

/// Two texts one behind the other move to the right as each of them does.
pub proof fn law_texts_move_together(first: Seq<PieceView>, second: Seq<PieceView>, level: nat)
    ensures
        indented(first + second, level) == indented(first, level) + indented(second, level),
{
    assert(indented(first + second, level) =~= indented(first, level) + indented(second, level));
}

} // verus!
