//! Patterns that are written afresh.

use crate::text::{
    comma_separated, copied, extend, join, push_blank, push_solid, single, Piece, PieceView,
};
use vstd::prelude::*;

verus! {

/// What a [`RecordPatField`] stands for.
pub struct RecordPatFieldView {
    pub name: Seq<char>,
    pub pat: Option<Seq<PieceView>>,
}

impl RecordPatFieldView {
    /// `name: pat`, or the name alone.
    pub open spec fn text(self) -> Seq<PieceView> {
        match self.pat {
            Some(pat) => seq![
                PieceView::solid(self.name),
                PieceView::solid(seq![':']),
                PieceView::blank(seq![' ']),
            ] + pat,
            None => seq![PieceView::solid(self.name)],
        }
    }
}

/// A field of a record pattern: `name: pat`, or the name alone.
#[derive(Debug)]
pub struct RecordPatField {
    pub name: String,
    pub pat: Option<Vec<Piece>>,
}

impl DeepView for RecordPatField {
    type V = RecordPatFieldView;

    open spec fn deep_view(&self) -> RecordPatFieldView {
        RecordPatFieldView { name: self.name@, pat: self.pat.deep_view() }
    }
}

impl RecordPatField {
    /// The field as it is written.
    pub fn to_text(&self) -> (text: Vec<Piece>)
        ensures
            text.deep_view() == self.deep_view().text(),
    {
        let mut text: Vec<Piece> = Vec::new();
        text.push(Piece::solid(self.name.as_str()));
        match &self.pat {
            Some(pat) => {
                proof {
                    reveal_strlit(":");
                    reveal_strlit(" ");
                }
                text.push(Piece::solid(":"));
                text.push(Piece::blank(" "));
                assert(":"@ =~= seq![':']);
                assert(" "@ =~= seq![' ']);
                assert(text.deep_view() =~= seq![
                    PieceView::solid(self.name@),
                    PieceView::solid(seq![':']),
                    PieceView::blank(seq![' ']),
                ]);
                extend(&mut text, pat);
            },
            None => {
                assert(text.deep_view() =~= self.deep_view().text());
            },
        }
        text
    }
}

/// What a [`Pat`] stands for.
pub enum PatView {
    Literal(bool),
    Path(Seq<PieceView>),
    TupleStruct { path: Seq<PieceView>, fields: Seq<Seq<PieceView>> },
    Record { path: Seq<PieceView>, named: Seq<RecordPatFieldView>, rest: bool },
}

/// The wildcard pattern `_`.
pub open spec fn wildcard() -> Seq<PieceView> {
    seq![PieceView::solid(seq!['_'])]
}

/// The rest pattern `..`.
pub open spec fn rest_pat() -> Seq<PieceView> {
    seq![PieceView::solid(seq!['.', '.'])]
}

impl PatView {
    /// The pattern as it is written: `true`, `path`, `path(field, field)` or
    /// `path { field, field }`, the last with `..` behind the fields where there is a rest.
    pub open spec fn text(self) -> Seq<PieceView> {
        match self {
            PatView::Literal(value) => if value {
                seq![PieceView::solid(seq!['t', 'r', 'u', 'e'])]
            } else {
                seq![PieceView::solid(seq!['f', 'a', 'l', 's', 'e'])]
            },
            PatView::Path(path) => path,
            PatView::TupleStruct { path, fields } => {
                path + seq![PieceView::solid(seq!['('])] + comma_separated(fields) + seq![
                    PieceView::solid(seq![')']),
                ]
            },
            PatView::Record { path, named, rest } => {
                let texts = named.map_values(|field: RecordPatFieldView| field.text());
                let items = if rest {
                    texts.push(rest_pat())
                } else {
                    texts
                };
                path + seq![
                    PieceView::blank(seq![' ']),
                    PieceView::solid(seq!['{']),
                    PieceView::blank(seq![' ']),
                ] + comma_separated(items) + seq![
                    PieceView::blank(seq![' ']),
                    PieceView::solid(seq!['}']),
                ]
            },
        }
    }
}

/// A pattern that is written afresh. What stands inside it is text.
#[derive(Debug)]
pub enum Pat {
    /// `true` or `false`.
    Literal(bool),
    /// A path alone, such as that of a unit variant.
    Path(Vec<Piece>),
    /// A path with fields in round brackets.
    TupleStruct { path: Vec<Piece>, fields: Vec<Vec<Piece>> },
    /// A path with named fields in braces, and `..` behind them where `rest` is set.
    Record { path: Vec<Piece>, named: Vec<RecordPatField>, rest: bool },
}

impl DeepView for Pat {
    type V = PatView;

    open spec fn deep_view(&self) -> PatView {
        match *self {
            Pat::Literal(value) => PatView::Literal(value),
            Pat::Path(path) => PatView::Path(path.deep_view()),
            Pat::TupleStruct { path, fields } => PatView::TupleStruct {
                path: path.deep_view(),
                fields: fields.deep_view(),
            },
            Pat::Record { path, named, rest } => PatView::Record {
                path: path.deep_view(),
                named: named.deep_view(),
                rest,
            },
        }
    }
}

/// The wildcard pattern `_`.
pub fn wildcard_pat() -> (text: Vec<Piece>)
    ensures
        text.deep_view() == wildcard(),
{
    proof {
        reveal_strlit("_");
        assert("_"@ =~= seq!['_']);
    }
    single("_")
}

fn copied_texts(texts: &Vec<Vec<Piece>>) -> (copy: Vec<Vec<Piece>>)
    ensures
        copy.deep_view() == texts.deep_view(),
{
    let ghost wanted = texts.deep_view();
    let mut copy: Vec<Vec<Piece>> = Vec::new();
    let mut i: usize = 0;
    assert(copy.deep_view() =~= wanted.take(0));
    while i < texts.len()
        invariant
            i <= texts.len(),
            wanted == texts.deep_view(),
            copy.deep_view() == wanted.take(i as int),
        decreases texts.len() - i,
    {
        let ghost before = copy.deep_view();
        copy.push(copied(&texts[i]));
        assert(copy.deep_view() =~= before.push(wanted[i as int]));
        assert(wanted.take(i + 1) =~= wanted.take(i as int).push(wanted[i as int]));
        i += 1;
    }
    assert(wanted.take(texts.len() as int) =~= wanted);
    copy
}

fn copied_fields(fields: &Vec<RecordPatField>) -> (copy: Vec<RecordPatField>)
    ensures
        copy.deep_view() == fields.deep_view(),
{
    let ghost wanted = fields.deep_view();
    let mut copy: Vec<RecordPatField> = Vec::new();
    let mut i: usize = 0;
    assert(copy.deep_view() =~= wanted.take(0));
    while i < fields.len()
        invariant
            i <= fields.len(),
            wanted == fields.deep_view(),
            copy.deep_view() == wanted.take(i as int),
        decreases fields.len() - i,
    {
        let ghost before = copy.deep_view();
        let pat = match &fields[i].pat {
            Some(pat) => Some(copied(pat)),
            None => None,
        };
        copy.push(RecordPatField { name: fields[i].name.clone(), pat });
        assert(copy.deep_view() =~= before.push(wanted[i as int]));
        assert(wanted.take(i + 1) =~= wanted.take(i as int).push(wanted[i as int]));
        i += 1;
    }
    assert(wanted.take(fields.len() as int) =~= wanted);
    copy
}

impl Pat {
    /// The same pattern once more.
    pub fn copied(&self) -> (pat: Pat)
        ensures
            pat.deep_view() == self.deep_view(),
    {
        match self {
            Pat::Literal(value) => Pat::Literal(*value),
            Pat::Path(path) => Pat::Path(copied(path)),
            Pat::TupleStruct { path, fields } => Pat::TupleStruct {
                path: copied(path),
                fields: copied_texts(fields),
            },
            Pat::Record { path, named, rest } => Pat::Record {
                path: copied(path),
                named: copied_fields(named),
                rest: *rest,
            },
        }
    }

    /// The pattern as it is written.
    pub fn to_text(&self) -> (text: Vec<Piece>)
        ensures
            text.deep_view() == self.deep_view().text(),
    {
        match self {
            Pat::Literal(value) => {
                proof {
                    reveal_strlit("true");
                    reveal_strlit("false");
                    assert("true"@ =~= seq!['t', 'r', 'u', 'e']);
                    assert("false"@ =~= seq!['f', 'a', 'l', 's', 'e']);
                }
                if *value {
                    single("true")
                } else {
                    single("false")
                }
            },
            Pat::Path(path) => copied(path),
            Pat::TupleStruct { path, fields } => {
                proof {
                    reveal_strlit("(");
                    reveal_strlit(")");
                    assert("("@ =~= seq!['(']);
                    assert(")"@ =~= seq![')']);
                }
                let mut text = copied(path);
                push_solid(&mut text, "(");
                let inner = join(fields);
                extend(&mut text, &inner);
                push_solid(&mut text, ")");
                text
            },
            Pat::Record { path, named, rest } => {
                proof {
                    reveal_strlit(" ");
                    reveal_strlit("{");
                    reveal_strlit("}");
                    reveal_strlit("..");
                    assert(" "@ =~= seq![' ']);
                    assert("{"@ =~= seq!['{']);
                    assert("}"@ =~= seq!['}']);
                    assert(".."@ =~= seq!['.', '.']);
                }
                let ghost texts = named.deep_view().map_values(
                    |field: RecordPatFieldView| field.text(),
                );
                let mut items: Vec<Vec<Piece>> = Vec::new();
                let mut i: usize = 0;
                assert(items.deep_view() =~= texts.take(0));
                while i < named.len()
                    invariant
                        i <= named.len(),
                        texts == named.deep_view().map_values(
                            |field: RecordPatFieldView| field.text(),
                        ),
                        items.deep_view() == texts.take(i as int),
                    decreases named.len() - i,
                {
                    let ghost before = items.deep_view();
                    items.push(named[i].to_text());
                    assert(items.deep_view() =~= before.push(texts[i as int]));
                    assert(texts.take(i + 1) =~= texts.take(i as int).push(texts[i as int]));
                    i += 1;
                }
                assert(texts.take(named.len() as int) =~= texts);
                if *rest {
                    let ghost before = items.deep_view();
                    items.push(single(".."));
                    assert(items.deep_view() =~= before.push(rest_pat()));
                }
                let mut text = copied(path);
                push_blank(&mut text, " ");
                push_solid(&mut text, "{");
                push_blank(&mut text, " ");
                assert(text.deep_view() =~= path.deep_view() + seq![
                    PieceView::blank(seq![' ']),
                    PieceView::solid(seq!['{']),
                    PieceView::blank(seq![' ']),
                ]);
                let inner = join(&items);
                extend(&mut text, &inner);
                let ghost opened = text.deep_view();
                push_blank(&mut text, " ");
                push_solid(&mut text, "}");
                assert(text.deep_view() =~= opened + seq![
                    PieceView::blank(seq![' ']),
                    PieceView::solid(seq!['}']),
                ]);
                text
            },
        }
    }
}

} // verus!
