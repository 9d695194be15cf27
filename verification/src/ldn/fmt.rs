//! The layout-preserving formatter.
//!
//! Between two neighbouring items the formatter looks only at the lines on
//! which they started in the source: items that shared a line stay on one
//! line, items on different lines are put on different lines, and at top
//! level at most one blank line between them survives.

use vstd::prelude::*;
use vstd::string::StringExecFns;
use super::ast::{Atom, AtomView, Item, ItemView, items_view, lemma_items_view};
use super::text::{decimal_int, format_integer};

verus! {

/// How many columns each level of nesting indents.
pub open spec fn indent_level() -> nat {
    4
}

/// `n` spaces.
pub open spec fn spaces(n: nat) -> Seq<char> {
    Seq::new(n, |i: int| ' ')
}

/// How many lines lie between the starts of two neighbouring items, as the
/// formatter counts them: always 2 between two top-level items neither of
/// which is a comment, else the difference of their starting lines.
pub open spec fn line_delta(prev: ItemView, item: ItemView, is_top_level: bool) -> int {
    if is_top_level && !item.is_comment() && !prev.is_comment() {
        2
    } else {
        item.span().start.line - prev.span().start.line
    }
}

/// What the formatter writes between two neighbouring items: a space if
/// they started on the same line; else a line feed, followed at top level by
/// a second one if more than one line lay between them, and inside a list by
/// the indentation.
pub open spec fn separator(prev: ItemView, item: ItemView, is_top_level: bool, lhs: nat) -> Seq<
    char,
> {
    let delta = line_delta(prev, item, is_top_level);
    let first = if delta == 0 {
        seq![' ']
    } else if delta > 0 {
        seq!['\n']
    } else {
        Seq::empty()
    };
    let second = if is_top_level && delta > 1 {
        seq!['\n']
    } else if !is_top_level && delta >= 1 {
        spaces(lhs)
    } else {
        Seq::empty()
    };
    first + second
}

/// How an atom is written: an integer as its decimal numeral, a keyword
/// after a colon, a string between quotation marks, a symbol as it is.
pub open spec fn atom_text(atom: AtomView) -> Seq<char> {
    match atom {
        AtomView::Integer(value, _) => decimal_int(value),
        AtomView::Keyword(name, _) => seq![':'] + name,
        AtomView::String(value, _) => seq!['"'] + value + seq!['"'],
        AtomView::Symbol(name, _) => name,
    }
}

/// How an item is written at indentation `lhs`: an atom as `atom_text`, a
/// comment after `; `, a list as its items one level deeper.
pub open spec fn item_text(item: ItemView, lhs: nat) -> Seq<char>
    decreases item, 0int,
{
    match item {
        ItemView::Atom(atom) => atom_text(atom),
        ItemView::Comment(text, _) => seq![';', ' '] + text,
        ItemView::List(children, _) => items_text(children, false, lhs + indent_level()),
    }
}

/// How neighbouring items are written: each as `item_text`, with
/// `separator` between each two.
pub open spec fn siblings_text(items: Seq<ItemView>, is_top_level: bool, lhs: nat) -> Seq<char>
    decreases items, 1int,
{
    if items.len() == 0 {
        Seq::empty()
    } else if items.len() == 1 {
        item_text(items[0], lhs)
    } else {
        item_text(items[0], lhs) + separator(items[0], items[1], is_top_level, lhs)
            + siblings_text(items.drop_first(), is_top_level, lhs)
    }
}

/// How a sequence of items is written: at top level the items and a final
/// line feed, inside a list the items between parentheses.
pub open spec fn items_text(items: Seq<ItemView>, is_top_level: bool, lhs: nat) -> Seq<char>
    decreases items, 2int,
{
    if is_top_level {
        siblings_text(items, is_top_level, lhs) + seq!['\n']
    } else {
        seq!['('] + siblings_text(items, is_top_level, lhs) + seq![')']
    }
}

/// The formatted text of a document.
pub open spec fn document_text(items: Seq<ItemView>) -> Seq<char> {
    items_text(items, true, 0)
}

/// Writing one more item after its neighbours adds the separator and the
/// item's text at the end.
pub proof fn lemma_siblings_text_push(
    items: Seq<ItemView>,
    item: ItemView,
    is_top_level: bool,
    lhs: nat,
)
    requires
        items.len() > 0,
    ensures
        siblings_text(items.push(item), is_top_level, lhs) == siblings_text(
            items,
            is_top_level,
            lhs,
        ) + separator(items.last(), item, is_top_level, lhs) + item_text(item, lhs),
    decreases items.len(),
{
    let longer = items.push(item);
    assert(longer.drop_first() =~= items.drop_first().push(item));
    if items.len() == 1 {
        assert(longer.drop_first() =~= seq![item]);
        assert(siblings_text(seq![item], is_top_level, lhs) == item_text(item, lhs));
    } else {
        lemma_siblings_text_push(items.drop_first(), item, is_top_level, lhs);
        assert(items.drop_first().last() == items.last());
        assert(siblings_text(longer, is_top_level, lhs) =~= siblings_text(
            items,
            is_top_level,
            lhs,
        ) + separator(items.last(), item, is_top_level, lhs) + item_text(item, lhs));
    }
}

/// Formats a document.
pub fn fmt(top: &[Item]) -> (text: String)
    ensures
        text@ == document_text(items_view(top@)),
{
    proof {
        reveal_strlit("");
        assert(""@ =~= spaces(0));
    }
    fmt_items(top, true, "")
}

fn fmt_items(items: &[Item], is_top_level: bool, indent: &str) -> (text: String)
    requires
        indent@ == spaces(indent@.len()),
    ensures
        text@ == items_text(items_view(items@), is_top_level, indent@.len()),
    decreases items@, 2int,
{
    let ghost lhs = indent@.len();
    let ghost views = items_view(items@);
    proof {
        lemma_items_view(items@);
        reveal_strlit("(");
        reveal_strlit(")");
        reveal_strlit("\n");
        reveal_strlit(" ");
    }
    let mut ret = String::new();
    if !is_top_level {
        ret.append("(");
    }
    let ghost open = ret@;
    let n = items.len();
    let mut i: usize = 0;
    while i < n
        invariant
            n == items@.len(),
            i <= n,
            views == items_view(items@),
            views.len() == n,
            forall|k: int| 0 <= k < n ==> (#[trigger] views[k]) == items@[k]@,
            lhs == indent@.len(),
            indent@ == spaces(lhs),
            "\n"@ == seq!['\n'],
            " "@ == seq![' '],
            ret@ == open + siblings_text(views.subrange(0, i as int), is_top_level, lhs),
        decreases n - i,
    {
        let item = &items[i];
        let ghost before = ret@;
        if i > 0 {
            let prev = &items[i - 1];
            let forced = is_top_level && !item.is_comment() && !prev.is_comment();
            let line = item.span().start.line;
            let prev_line = prev.span().start.line;
            let same = !forced && line == prev_line;
            let below = forced || line > prev_line;
            let far = forced || (line > prev_line && line - prev_line > 1);
            if same {
                ret.append(" ");
            } else if below {
                ret.append("\n");
            }
            if is_top_level && far {
                ret.append("\n");
            } else if !is_top_level && below {
                ret.append(indent);
            }
            assert(ret@ =~= before + separator(views[i - 1], views[i as int], is_top_level, lhs));
        }
        let piece = fmt_item(item, indent);
        ret.append(piece.as_str());
        proof {
            let shorter = views.subrange(0, i as int);
            let longer = views.subrange(0, i + 1);
            assert(longer =~= shorter.push(views[i as int]));
            if i > 0 {
                lemma_siblings_text_push(shorter, views[i as int], is_top_level, lhs);
                assert(shorter.last() == views[i - 1]);
                assert(ret@ =~= open + siblings_text(longer, is_top_level, lhs));
            } else {
                assert(longer =~= seq![views[0]]);
                assert(siblings_text(shorter, is_top_level, lhs) =~= Seq::<char>::empty());
                assert(ret@ =~= open + siblings_text(longer, is_top_level, lhs));
            }
        }
        i += 1;
    }
    assert(views.subrange(0, n as int) =~= views);
    if !is_top_level {
        ret.append(")");
    } else {
        ret.append("\n");
    }
    assert(ret@ =~= items_text(views, is_top_level, lhs));
    ret
}

fn fmt_item(item: &Item, indent: &str) -> (text: String)
    requires
        indent@ == spaces(indent@.len()),
    ensures
        text@ == item_text(item@, indent@.len()),
    decreases item, 0int,
{
    match item {
        Item::Atom(atom) => fmt_atom(atom),
        Item::Comment(comment, _) => {
            proof {
                reveal_strlit("; ");
            }
            let mut text = String::from_str("; ");
            text.append(comment.as_str());
            assert(text@ =~= seq![';', ' '] + comment@);
            text
        },
        Item::List(items, _) => {
            proof {
                reveal_strlit("    ");
            }
            let mut deeper = String::from_str(indent);
            deeper.append("    ");
            assert(deeper@ =~= spaces(indent@.len() + indent_level()));
            fmt_items(items.as_slice(), false, deeper.as_str())
        },
    }
}

pub(crate) fn fmt_atom(atom: &Atom) -> (text: String)
    ensures
        text@ == atom_text(atom@),
{
    match atom {
        Atom::Integer(integer, _) => format_integer(*integer),
        Atom::Keyword(keyword, _) => {
            proof {
                reveal_strlit(":");
            }
            let mut text = String::from_str(":");
            text.append(keyword.as_str());
            assert(text@ =~= seq![':'] + keyword@);
            text
        },
        Atom::String(string, _) => {
            proof {
                reveal_strlit("\"");
            }
            let mut text = String::from_str("\"");
            text.append(string.as_str());
            text.append("\"");
            assert(text@ =~= seq!['"'] + string@ + seq!['"']);
            text
        },
        Atom::Symbol(symbol, _) => symbol.clone(),
    }
}

} // verus!
