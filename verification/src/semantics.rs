//! What is known of the types in a file, and where its parts stand.

use crate::tree::TextRange;
use vstd::prelude::*;

verus! {

/// What [`VariantFields`] stand for.
pub enum VariantFieldsView {
    Tuple(Seq<Option<Seq<char>>>),
    Record(Seq<Seq<char>>),
    Unit,
}

/// The fields of a variant.
#[derive(Debug)]
pub enum VariantFields {
    /// Fields in round brackets. For each: the name that its type suggests for a binding, if
    /// the type suggests one, made different from the names before it.
    Tuple(Vec<Option<String>>),
    /// Fields in braces, with their names.
    Record(Vec<String>),
    /// No fields.
    Unit,
}

impl DeepView for VariantFields {
    type V = VariantFieldsView;

    open spec fn deep_view(&self) -> VariantFieldsView {
        match *self {
            VariantFields::Tuple(names) => VariantFieldsView::Tuple(names.deep_view()),
            VariantFields::Record(names) => VariantFieldsView::Record(names.deep_view()),
            VariantFields::Unit => VariantFieldsView::Unit,
        }
    }
}

/// What a [`Variant`] stands for.
pub struct VariantView {
    pub path: Option<Seq<char>>,
    pub fields: VariantFieldsView,
}

/// A variant of an enum.
#[derive(Debug)]
pub struct Variant {
    /// The path by which the variant can be named where the pattern stands, if there is one.
    pub path: Option<String>,
    pub fields: VariantFields,
}

impl DeepView for Variant {
    type V = VariantView;

    open spec fn deep_view(&self) -> VariantView {
        VariantView { path: self.path.deep_view(), fields: self.fields.deep_view() }
    }
}

/// What a [`Type`] stands for.
pub enum TypeView {
    Enum(Seq<VariantView>),
    Bool,
    Other,
}

impl TypeView {
    /// Whether a binding of the type can be split.
    pub open spec fn is_splittable(self) -> bool {
        self is Enum || self is Bool
    }
}

/// The type of a pattern.
#[derive(Debug)]
pub enum Type {
    /// An enum, with its variants in the order of their declaration.
    Enum(Vec<Variant>),
    /// `bool`.
    Bool,
    /// Any other type.
    Other,
}

impl DeepView for Type {
    type V = TypeView;

    open spec fn deep_view(&self) -> TypeView {
        match *self {
            Type::Enum(variants) => TypeView::Enum(variants.deep_view()),
            Type::Bool => TypeView::Bool,
            Type::Other => TypeView::Other,
        }
    }
}

impl Type {
    /// Whether a binding of the type can be split.
    pub fn is_splittable(&self) -> (splittable: bool)
        ensures
            splittable == self.deep_view().is_splittable(),
    {
        match self {
            Type::Enum(_) | Type::Bool => true,
            Type::Other => false,
        }
    }
}

/// What a [`BindingFacts`] stands for.
pub struct BindingFactsView {
    pub pat: int,
    pub binding_type: Option<TypeView>,
    pub pat_type: Option<TypeView>,
    pub in_module: bool,
}

/// What is known of an identifier pattern.
#[derive(Debug)]
pub struct BindingFacts {
    /// The identifier pattern.
    pub pat: usize,
    /// The type of the binding that the pattern brings in.
    pub binding_type: Option<Type>,
    /// The type that the pattern matches, after adjustment.
    pub pat_type: Option<Type>,
    /// Whether the pattern is known to stand in a module.
    pub in_module: bool,
}

impl DeepView for BindingFacts {
    type V = BindingFactsView;

    open spec fn deep_view(&self) -> BindingFactsView {
        BindingFactsView {
            pat: self.pat as int,
            binding_type: self.binding_type.deep_view(),
            pat_type: self.pat_type.deep_view(),
            in_module: self.in_module,
        }
    }
}

/// Where a list of arms stands in its file.
#[derive(Clone, Copy, Debug, PartialEq, Eq, Structural)]
pub struct Place {
    /// The list of arms.
    pub arm_list: usize,
    /// The range of the node that takes up its place.
    pub range: TextRange,
    /// The indentation level of that node, four spaces each.
    pub indent: u8,
}

/// What [`Semantics`] stand for.
pub struct SemanticsView {
    pub bindings: Seq<BindingFactsView>,
    pub places: Seq<Place>,
}

impl SemanticsView {
    /// What is known of the pattern: the first entry for it.
    pub open spec fn binding(self, pat: int) -> Option<BindingFactsView> {
        first_binding(self.bindings, pat)
    }

    /// Where the list of arms stands: the first entry for it.
    pub open spec fn place(self, arm_list: int) -> Option<Place> {
        first_place(self.places, arm_list)
    }
}

/// The first entry for the pattern.
pub open spec fn first_binding(bindings: Seq<BindingFactsView>, pat: int) -> Option<
    BindingFactsView,
>
    decreases bindings.len(),
{
    if bindings.len() == 0 {
        None
    } else {
        match first_binding(bindings.drop_last(), pat) {
            Some(found) => Some(found),
            None => if bindings.last().pat == pat {
                Some(bindings.last())
            } else {
                None
            },
        }
    }
}

/// The first entry for the list of arms.
pub open spec fn first_place(places: Seq<Place>, arm_list: int) -> Option<Place>
    decreases places.len(),
{
    if places.len() == 0 {
        None
    } else {
        match first_place(places.drop_last(), arm_list) {
            Some(found) => Some(found),
            None => if places.last().arm_list == arm_list {
                Some(places.last())
            } else {
                None
            },
        }
    }
}

/// What is known of a file beyond its syntax.
#[derive(Debug)]
pub struct Semantics {
    /// What is known of identifier patterns.
    pub bindings: Vec<BindingFacts>,
    /// Where lists of arms stand. One that has no place of its own in the file is left out.
    pub places: Vec<Place>,
}

impl DeepView for Semantics {
    type V = SemanticsView;

    open spec fn deep_view(&self) -> SemanticsView {
        SemanticsView { bindings: self.bindings.deep_view(), places: self.places@ }
    }
}

impl Semantics {
    /// What is known of the pattern.
    pub fn binding(&self, pat: usize) -> (found: Option<&BindingFacts>)
        ensures
            match found {
                Some(facts) => self.deep_view().binding(pat as int) == Some(facts.deep_view()),
                None => self.deep_view().binding(pat as int) is None,
            },
    {
        let ghost all = self.bindings.deep_view();
        let mut found: Option<&BindingFacts> = None;
        let mut i: usize = 0;
        while i < self.bindings.len()
            invariant
                i <= self.bindings.len(),
                all == self.bindings.deep_view(),
                match found {
                    Some(facts) => first_binding(all.take(i as int), pat as int) == Some(
                        facts.deep_view(),
                    ),
                    None => first_binding(all.take(i as int), pat as int) is None,
                },
            decreases self.bindings.len() - i,
        {
            proof {
                let longer = all.take(i + 1);
                assert(longer.drop_last() =~= all.take(i as int));
                assert(longer.last() == self.bindings[i as int].deep_view());
            }
            if found.is_none() && self.bindings[i].pat == pat {
                found = Some(&self.bindings[i]);
            }
            i += 1;
        }
        assert(all.take(self.bindings.len() as int) =~= all);
        found
    }

    /// Where the list of arms stands.
    pub fn place(&self, arm_list: usize) -> (found: Option<Place>)
        ensures
            found == self.deep_view().place(arm_list as int),
    {
        let ghost all = self.places@;
        let mut found: Option<Place> = None;
        let mut i: usize = 0;
        while i < self.places.len()
            invariant
                i <= self.places.len(),
                all == self.places@,
                found == first_place(all.take(i as int), arm_list as int),
            decreases self.places.len() - i,
        {
            assert(all.take(i + 1).drop_last() =~= all.take(i as int));
            if found.is_none() && self.places[i].arm_list == arm_list {
                found = Some(self.places[i]);
            }
            i += 1;
        }
        assert(all.take(self.places.len() as int) =~= all);
        found
    }
}

} // verus!
