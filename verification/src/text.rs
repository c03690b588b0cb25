//! Source text as pieces, and the few pieces that are spelled out afresh.

use vstd::prelude::*;

verus! {

/// What a [`Piece`] stands for.
pub struct PieceView {
    pub whitespace: bool,
    pub text: Seq<char>,
}

impl PieceView {
    /// A piece that is not whitespace.
    pub open spec fn solid(text: Seq<char>) -> PieceView {
        PieceView { whitespace: false, text }
    }

    /// A piece of whitespace.
    pub open spec fn blank(text: Seq<char>) -> PieceView {
        PieceView { whitespace: true, text }
    }

    /// Whether the piece is whitespace that ends a line.
    pub open spec fn breaks_line(self) -> bool {
        self.whitespace && self.text.contains('\n')
    }
}

/// A stretch of source text: a whitespace token, or text that holds none at its ends.
#[derive(Debug)]
pub struct Piece {
    pub whitespace: bool,
    pub text: String,
}

impl DeepView for Piece {
    type V = PieceView;

    open spec fn deep_view(&self) -> PieceView {
        PieceView { whitespace: self.whitespace, text: self.text@ }
    }
}

impl Piece {
    /// A piece that is not whitespace.
    pub fn solid(text: &str) -> (piece: Piece)
        ensures
            piece.deep_view() == PieceView::solid(text@),
    {
        Piece { whitespace: false, text: text.to_owned() }
    }

    /// A piece of whitespace.
    pub fn blank(text: &str) -> (piece: Piece)
        ensures
            piece.deep_view() == PieceView::blank(text@),
    {
        Piece { whitespace: true, text: text.to_owned() }
    }

    /// The same piece once more.
    pub fn copied(&self) -> (piece: Piece)
        ensures
            piece.deep_view() == self.deep_view(),
    {
        Piece { whitespace: self.whitespace, text: self.text.clone() }
    }

    /// Whether the piece is whitespace that ends a line.
    pub fn breaks_line(&self) -> (breaks: bool)
        ensures
            breaks == self.deep_view().breaks_line(),
    {
        if !self.whitespace {
            return false;
        }
        let text = self.text.as_str();
        let len: usize = text.unicode_len();
        let mut i: usize = 0;
        while i < len
            invariant
                self.whitespace,
                text@ == self.text@,
                i <= len,
                len == text@.len(),
                forall|j: int| 0 <= j < i ==> text@[j] != '\n',
            decreases len - i,
        {
            if text.get_char(i) == '\n' {
                assert(text@[i as int] == '\n');
                return true;
            }
            i += 1;
        }
        false
    }
}

/// The characters of a text, its pieces one after another.
pub open spec fn chars(text: Seq<PieceView>) -> Seq<char>
    decreases text.len(),
{
    if text.len() == 0 {
        Seq::empty()
    } else {
        chars(text.drop_last()) + text.last().text
    }
}

/// The characters of a text as one string.
pub fn to_string(text: &Vec<Piece>) -> (string: String)
    ensures
        string@ == chars(text.deep_view()),
{
    let mut string = String::new();
    let mut i: usize = 0;
    while i < text.len()
        invariant
            i <= text.len(),
            string@ == chars(text.deep_view().take(i as int)),
        decreases text.len() - i,
    {
        string.append(text[i].text.as_str());
        proof {
            let longer = text.deep_view().take(i + 1);
            assert(longer.drop_last() =~= text.deep_view().take(i as int));
            assert(longer.last() == text[i as int].deep_view());
        }
        i += 1;
    }
    assert(text.deep_view().take(text.len() as int) =~= text.deep_view());
    string
}

/// Adds the pieces of `more` to the end of `text`.
pub fn extend(text: &mut Vec<Piece>, more: &Vec<Piece>)
    ensures
        final(text).deep_view() == old(text).deep_view() + more.deep_view(),
{
    let ghost before = text.deep_view();
    let mut i: usize = 0;
    while i < more.len()
        invariant
            i <= more.len(),
            text.deep_view() == before + more.deep_view().take(i as int),
        decreases more.len() - i,
    {
        let ghost held = text.deep_view();
        text.push(more[i].copied());
        assert(text.deep_view() =~= held.push(more[i as int].deep_view()));
        assert(more.deep_view().take(i + 1) =~= more.deep_view().take(i as int).push(
            more.deep_view()[i as int],
        ));
        i += 1;
    }
    assert(more.deep_view().take(more.len() as int) =~= more.deep_view());
}

/// The same text once more.
pub fn copied(text: &Vec<Piece>) -> (copy: Vec<Piece>)
    ensures
        copy.deep_view() == text.deep_view(),
{
    let mut copy: Vec<Piece> = Vec::new();
    extend(&mut copy, text);
    copy
}

/// A text of one piece that is not whitespace.
pub fn single(word: &str) -> (text: Vec<Piece>)
    ensures
        text.deep_view() == seq![PieceView::solid(word@)],
{
    let mut text: Vec<Piece> = Vec::new();
    text.push(Piece::solid(word));
    assert(text.deep_view() =~= seq![PieceView::solid(word@)]);
    text
}

/// Adds a piece that is not whitespace to the end of `text`.
pub fn push_solid(text: &mut Vec<Piece>, word: &str)
    ensures
        final(text).deep_view() == old(text).deep_view() + seq![PieceView::solid(word@)],
{
    let ghost before = text.deep_view();
    text.push(Piece::solid(word));
    assert(text.deep_view() =~= before + seq![PieceView::solid(word@)]);
}

/// Adds a piece of whitespace to the end of `text`.
pub fn push_blank(text: &mut Vec<Piece>, blank: &str)
    ensures
        final(text).deep_view() == old(text).deep_view() + seq![PieceView::blank(blank@)],
{
    let ghost before = text.deep_view();
    text.push(Piece::blank(blank));
    assert(text.deep_view() =~= before + seq![PieceView::blank(blank@)]);
}

/// The texts with a comma and a space between each two.
pub open spec fn comma_separated(items: Seq<Seq<PieceView>>) -> Seq<PieceView>
    decreases items.len(),
{
    if items.len() == 0 {
        Seq::empty()
    } else if items.len() == 1 {
        items[0]
    } else {
        comma_separated(items.drop_last()) + seq![
            PieceView::solid(seq![',']),
            PieceView::blank(seq![' ']),
        ] + items.last()
    }
}

/// Puts the texts together, with a comma and a space between each two.
pub fn join(items: &Vec<Vec<Piece>>) -> (joined: Vec<Piece>)
    ensures
        joined.deep_view() == comma_separated(items.deep_view()),
{
    let mut joined: Vec<Piece> = Vec::new();
    let mut i: usize = 0;
    while i < items.len()
        invariant
            i <= items.len(),
            joined.deep_view() == comma_separated(items.deep_view().take(i as int)),
        decreases items.len() - i,
    {
        let ghost shorter = items.deep_view().take(i as int);
        let ghost longer = items.deep_view().take(i + 1);
        let ghost held = joined.deep_view();
        assert(longer.drop_last() =~= shorter);
        assert(longer.last() == items[i as int].deep_view());
        if i > 0 {
            proof {
                reveal_strlit(",");
                reveal_strlit(" ");
            }
            joined.push(Piece::solid(","));
            joined.push(Piece::blank(" "));
            assert(","@ =~= seq![',']);
            assert(" "@ =~= seq![' ']);
            assert(joined.deep_view() =~= held + seq![
                PieceView::solid(seq![',']),
                PieceView::blank(seq![' ']),
            ]);
        }
        extend(&mut joined, &items[i]);
        assert(joined.deep_view() =~= comma_separated(longer));
        i += 1;
    }
    assert(items.deep_view().take(items.len() as int) =~= items.deep_view());
    joined
}

/// So many spaces.
pub open spec fn spaces(count: nat) -> Seq<char> {
    Seq::new(count, |i: int| ' ')
}

/// The decimal digit of a number below ten.
pub open spec fn digit(n: nat) -> char {
    seq!['0', '1', '2', '3', '4', '5', '6', '7', '8', '9'][n as int]
}

/// A number in decimal.
pub open spec fn decimal(n: nat) -> Seq<char>
    decreases n,
{
    if n < 10 {
        seq![digit(n)]
    } else {
        decimal(n / 10).push(digit(n % 10))
    }
}

fn digit_str(n: usize) -> (digit_str: &'static str)
    requires
        n < 10,
    ensures
        digit_str@ == seq![digit(n as nat)],
{
    proof {
        reveal_strlit("0");
        reveal_strlit("1");
        reveal_strlit("2");
        reveal_strlit("3");
        reveal_strlit("4");
        reveal_strlit("5");
        reveal_strlit("6");
        reveal_strlit("7");
        reveal_strlit("8");
        reveal_strlit("9");
    }
    let digit_str = match n {
        0 => "0",
        1 => "1",
        2 => "2",
        3 => "3",
        4 => "4",
        5 => "5",
        6 => "6",
        7 => "7",
        8 => "8",
        _ => "9",
    };
    assert(digit_str@ =~= seq![digit(n as nat)]);
    digit_str
}

/// A number in decimal.
pub fn decimal_string(n: usize) -> (string: String)
    ensures
        string@ == decimal(n as nat),
    decreases n,
{
    if n < 10 {
        digit_str(n).to_owned()
    } else {
        let mut string = decimal_string(n / 10);
        string.append(digit_str(n % 10));
        assert(string@ =~= decimal(n as nat));
        string
    }
}

} // verus!
