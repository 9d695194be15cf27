//! The document tree: items, atoms and their mathematical views.

use vstd::prelude::*;
use super::pos::Span;

verus! {

/// A list of items.
pub type List = Vec<Item>;

/// An item is either an atom, a comment or a list of items.
#[derive(Debug, PartialEq)]
pub enum Item {
    Atom(Atom),
    Comment(String, Span),
    List(Vec<Item>, Span),
}

/// An indivisible syntactic element: anything that is not a comment or a list.
#[derive(Debug, PartialEq)]
pub enum Atom {
    Integer(isize, Span),
    Keyword(String, Span),
    String(String, Span),
    Symbol(String, Span),
}

/// What an `Atom` stands for: its text as a sequence of characters, its
/// number as a mathematical integer.
pub enum AtomView {
    Integer(int, Span),
    Keyword(Seq<char>, Span),
    String(Seq<char>, Span),
    Symbol(Seq<char>, Span),
}

/// What an `Item` stands for.
pub enum ItemView {
    Atom(AtomView),
    Comment(Seq<char>, Span),
    List(Seq<ItemView>, Span),
}

impl AtomView {
    /// The span of the atom.
    pub open spec fn span(self) -> Span {
        match self {
            AtomView::Integer(_, span) => span,
            AtomView::Keyword(_, span) => span,
            AtomView::String(_, span) => span,
            AtomView::Symbol(_, span) => span,
        }
    }
}

impl ItemView {
    /// The span of the item.
    pub open spec fn span(self) -> Span {
        match self {
            ItemView::Atom(atom) => atom.span(),
            ItemView::Comment(_, span) => span,
            ItemView::List(_, span) => span,
        }
    }

    /// Whether the item is a comment.
    pub open spec fn is_comment(self) -> bool {
        self is Comment
    }
}

impl View for Atom {
    type V = AtomView;

    open spec fn view(&self) -> AtomView {
        match self {
            Atom::Integer(value, span) => AtomView::Integer(*value as int, *span),
            Atom::Keyword(name, span) => AtomView::Keyword(name@, *span),
            Atom::String(value, span) => AtomView::String(value@, *span),
            Atom::Symbol(name, span) => AtomView::Symbol(name@, *span),
        }
    }
}

impl View for Item {
    type V = ItemView;

    open spec fn view(&self) -> ItemView
        decreases self,
    {
        match self {
            Item::Atom(atom) => ItemView::Atom(atom@),
            Item::Comment(text, span) => ItemView::Comment(text@, *span),
            Item::List(items, span) => ItemView::List(items_view(items@), *span),
        }
    }
}

/// The view of a sequence of items: the view of each, in order.
pub open spec fn items_view(items: Seq<Item>) -> Seq<ItemView>
    decreases items,
{
    if items.len() == 0 {
        Seq::empty()
    } else {
        items_view(items.drop_last()).push(items.last()@)
    }
}

/// `items_view` maps the view over the sequence, index by index.
pub proof fn lemma_items_view(items: Seq<Item>)
    ensures
        items_view(items).len() == items.len(),
        forall|i: int| 0 <= i < items.len() ==> (#[trigger] items_view(items)[i]) == items[i]@,
    decreases items.len(),
{
    if items.len() > 0 {
        lemma_items_view(items.drop_last());
        assert(items_view(items) == items_view(items.drop_last()).push(items.last()@));
    } else {
        assert(items_view(items) == Seq::<ItemView>::empty());
    }
}

/// Appending an item to a sequence appends its view to the sequence's view.
pub proof fn lemma_items_view_push(items: Seq<Item>, item: Item)
    ensures
        items_view(items.push(item)) == items_view(items).push(item@),
{
    assert(items.push(item).drop_last() =~= items);
}

impl Atom {
    /// Returns the `Span` associated with the atom.
    pub fn span(&self) -> (span: &Span)
        ensures
            *span == self@.span(),
    {
        match self {
            Atom::Integer(_, span) => span,
            Atom::Keyword(_, span) => span,
            Atom::String(_, span) => span,
            Atom::Symbol(_, span) => span,
        }
    }
}

impl Item {
    /// Returns the `Span` associated with the item.
    pub fn span(&self) -> (span: &Span)
        ensures
            *span == self@.span(),
    {
        match self {
            Item::Atom(atom) => atom.span(),
            Item::Comment(_, span) => span,
            Item::List(_, span) => span,
        }
    }

    /// Returns `true` if the current item is a comment.
    pub fn is_comment(&self) -> (b: bool)
        ensures
            b == self@.is_comment(),
    {
        match self {
            Item::Comment(_, _) => true,
            _ => false,
        }
    }
}

} // verus!
