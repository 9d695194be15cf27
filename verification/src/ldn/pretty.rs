//! The plain printer: a simpler serializer that ignores the layout of the
//! source.

use vstd::prelude::*;
use vstd::string::StringExecFns;
use super::ast::{Item, ItemView, items_view, lemma_items_view};
use super::fmt::{atom_text, fmt_atom};

verus! {

/// How the plain printer writes an item: an atom as the formatter does, a
/// comment as its text and a line feed, a list as its items with single
/// spaces between them, in parentheses.
pub open spec fn plain_item_text(item: ItemView) -> Seq<char>
    decreases item, 0int,
{
    match item {
        ItemView::Atom(atom) => atom_text(atom),
        ItemView::Comment(text, _) => text + seq!['\n'],
        ItemView::List(children, _) => seq!['('] + plain_join(children, seq![' ']) + seq![')'],
    }
}

/// The items as the plain printer writes them, with `glue` between each two.
pub open spec fn plain_join(items: Seq<ItemView>, glue: Seq<char>) -> Seq<char>
    decreases items, 1int,
{
    if items.len() == 0 {
        Seq::empty()
    } else if items.len() == 1 {
        plain_item_text(items[0])
    } else {
        plain_join(items.drop_last(), glue) + glue + plain_item_text(items.last())
    }
}

/// The plain text of a document: its items with a blank line between each
/// two.
pub open spec fn plain_text(items: Seq<ItemView>) -> Seq<char> {
    plain_join(items, seq!['\n', '\n'])
}

/// Prints a document without regard to the layout of its source.
pub fn print(top: &[Item]) -> (text: String)
    ensures
        text@ == plain_text(items_view(top@)),
{
    print_items(top, true)
}

fn print_items(items: &[Item], is_top_level: bool) -> (text: String)
    ensures
        is_top_level ==> text@ == plain_join(items_view(items@), seq!['\n', '\n']),
        !is_top_level ==> text@ == seq!['('] + plain_join(items_view(items@), seq![' ']) + seq![
            ')',
        ],
    decreases items@, 1int,
{
    let ghost views = items_view(items@);
    let ghost glue = if is_top_level {
        seq!['\n', '\n']
    } else {
        seq![' ']
    };
    proof {
        lemma_items_view(items@);
        reveal_strlit("(");
        reveal_strlit(")");
        reveal_strlit("\n\n");
        reveal_strlit(" ");
    }
    let mut ret = String::new();
    if !is_top_level {
        ret.append("(");
    }
    let ghost open = ret@;
    let n = items.len();
    let mut i: usize = 0;
    while i < n
        invariant
            n == items@.len(),
            i <= n,
            views == items_view(items@),
            views.len() == n,
            forall|k: int| 0 <= k < n ==> (#[trigger] views[k]) == items@[k]@,
            glue == (if is_top_level { seq!['\n', '\n'] } else { seq![' '] }),
            "\n\n"@ == seq!['\n', '\n'],
            " "@ == seq![' '],
            ret@ == open + plain_join(views.subrange(0, i as int), glue),
        decreases n - i,
    {
        if i > 0 {
            if is_top_level {
                ret.append("\n\n");
            } else {
                ret.append(" ");
            }
        }
        let piece = print_item(&items[i]);
        ret.append(piece.as_str());
        proof {
            let shorter = views.subrange(0, i as int);
            let longer = views.subrange(0, i + 1);
            assert(longer.drop_last() =~= shorter);
            assert(longer.last() == views[i as int]);
            if i == 0 {
                assert(plain_join(shorter, glue) =~= Seq::<char>::empty());
            }
            assert(ret@ =~= open + plain_join(longer, glue));
        }
        i += 1;
    }
    assert(views.subrange(0, n as int) =~= views);
    if !is_top_level {
        ret.append(")");
    }
    assert(is_top_level ==> ret@ =~= plain_join(views, glue));
    ret
}

fn print_item(item: &Item) -> (text: String)
    ensures
        text@ == plain_item_text(item@),
    decreases item, 0int,
{
    match item {
        Item::Atom(atom) => fmt_atom(atom),
        Item::Comment(comment, _) => {
            proof {
                reveal_strlit("\n");
            }
            let mut text = comment.clone();
            text.append("\n");
            text
        },
        Item::List(items, _) => print_items(items.as_slice(), false),
    }
}

} // verus!
