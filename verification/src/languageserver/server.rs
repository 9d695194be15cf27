//! The table of open documents and the diagnostics that are published for
//! them.

use vstd::prelude::*;
use vstd::string::{StringExecFns, StringSliceAdditionalSpecFns};
use super::super::ldn::ast::{Item, ItemView, items_view};
use super::super::ldn::error::{Error, ErrorView};
use super::super::ldn::fmt::{document_text, fmt};
use super::super::ldn::grammar::document;
use super::super::ldn::parser::Parser;
use super::super::ldn::pos::Span;
use super::super::ldn::text::same_text;

verus! {

/// How serious a diagnostic is.
#[derive(Clone, Copy, Debug, PartialEq, Eq, Structural)]
pub enum Severity {
    Error,
    Warning,
    Information,
    Hint,
}

/// What an editor is told about an error: a message, the range of text that
/// it applies to, and how serious it is.
#[derive(Debug, PartialEq)]
pub struct Diagnostic {
    pub message: String,
    pub range: Span,
    pub severity: Severity,
}

/// The message that an editor shows for an error.
pub open spec fn diagnostic_message(e: ErrorView) -> Seq<char> {
    match e {
        ErrorView::IntegerLeadingZero(_, _) => "Found leading zero while parsing integer constant"@,
        ErrorView::IntegerParseError(_, _) => "Invalid integer constant"@,
        ErrorView::UnknownCharacter(_, _) => "Invalid character"@,
        ErrorView::SymbolParseError(_, _) => "Symbol parse error"@,
        ErrorView::UnbalancedParentheses(_) => "Unbalanced parentheses"@,
        ErrorView::Utf8Error(_) => "UTF-8 decode error"@,
    }
}

/// The range of text that an error applies to: its span, or the empty range
/// at its position. Lines and columns stay zero-based.
pub open spec fn diagnostic_range(e: ErrorView) -> Span {
    match e {
        ErrorView::IntegerLeadingZero(_, span) => span,
        ErrorView::IntegerParseError(_, span) => span,
        ErrorView::UnknownCharacter(_, pos) => Span { start: pos, end: pos },
        ErrorView::SymbolParseError(_, span) => span,
        ErrorView::UnbalancedParentheses(pos) => Span { start: pos, end: pos },
        ErrorView::Utf8Error(span) => span,
    }
}

/// Turns a parse error into the diagnostic that is published for it. Every
/// parse error is reported as an error.
pub fn diagnostic(err: &Error) -> (d: Diagnostic)
    ensures
        d.message@ == diagnostic_message(err@),
        d.range == diagnostic_range(err@),
        d.severity == Severity::Error,
{
    match err {
        Error::IntegerLeadingZero(_, span) => Diagnostic {
            message: String::from_str("Found leading zero while parsing integer constant"),
            range: *span,
            severity: Severity::Error,
        },
        Error::IntegerParseError(_, span) => Diagnostic {
            message: String::from_str("Invalid integer constant"),
            range: *span,
            severity: Severity::Error,
        },
        Error::UnknownCharacter(_, pos) => Diagnostic {
            message: String::from_str("Invalid character"),
            range: Span::new(*pos, *pos),
            severity: Severity::Error,
        },
        Error::SymbolParseError(_, span) => Diagnostic {
            message: String::from_str("Symbol parse error"),
            range: *span,
            severity: Severity::Error,
        },
        Error::UnbalancedParentheses(pos) => Diagnostic {
            message: String::from_str("Unbalanced parentheses"),
            range: Span::new(*pos, *pos),
            severity: Severity::Error,
        },
        Error::Utf8Error(span) => Diagnostic {
            message: String::from_str("UTF-8 decode error"),
            range: *span,
            severity: Severity::Error,
        }}
}

/// The document that the table holds for `uri`: that of the first entry
/// with this name.
pub open spec fn lookup(entries: Seq<(String, Vec<Item>)>, uri: Seq<char>) -> Option<Seq<ItemView>>
    decreases entries.len(),
{
    if entries.len() == 0 {
        None
    } else if entries[0].0@ == uri {
        Some(items_view(entries[0].1@))
    } else {
        lookup(entries.drop_first(), uri)
    }
}

/// The documents that are open in the editor, each under its name, as the
/// parser last read them. A document whose text could not be parsed is not
/// in the table.
pub struct Workspace {
    documents: Vec<(String, Vec<Item>)>,
}

impl View for Workspace {
    type V = Map<Seq<char>, Seq<ItemView>>;

    closed spec fn view(&self) -> Map<Seq<char>, Seq<ItemView>> {
        Map::new(
            |uri: Seq<char>| lookup(self.documents@, uri).is_some(),
            |uri: Seq<char>| lookup(self.documents@, uri)->Some_0,
        )
    }
}

/// `lookup` finds nothing under a name that no entry has.
proof fn lemma_lookup_absent(entries: Seq<(String, Vec<Item>)>, uri: Seq<char>)
    requires
        forall|k: int| 0 <= k < entries.len() ==> (#[trigger] entries[k]).0@ != uri,
    ensures
        lookup(entries, uri).is_none(),
    decreases entries.len(),
{
    if entries.len() > 0 {
        assert forall|k: int| 0 <= k < entries.drop_first().len() implies (
        #[trigger] entries.drop_first()[k]).0@ != uri by {
            assert(entries.drop_first()[k] == entries[k + 1]);
        }
        lemma_lookup_absent(entries.drop_first(), uri);
    }
}

/// Taking out an entry with another name changes nothing under `uri`.
proof fn lemma_lookup_remove(entries: Seq<(String, Vec<Item>)>, i: int, uri: Seq<char>)
    requires
        0 <= i < entries.len(),
        entries[i].0@ != uri,
    ensures
        lookup(entries.remove(i), uri) == lookup(entries, uri),
    decreases entries.len(),
{
    if i == 0 {
        assert(entries.remove(0) =~= entries.drop_first());
    } else {
        assert(entries.remove(i)[0] == entries[0]);
        assert(entries.remove(i).drop_first() =~= entries.drop_first().remove(i - 1));
        if entries[0].0@ != uri {
            lemma_lookup_remove(entries.drop_first(), i - 1, uri);
        }
    }
}

/// An entry put at the end is found under its name if no entry before it
/// has that name, and changes nothing under other names.
proof fn lemma_lookup_push(
    entries: Seq<(String, Vec<Item>)>,
    entry: (String, Vec<Item>),
    uri: Seq<char>,
)
    ensures
        entry.0@ != uri ==> lookup(entries.push(entry), uri) == lookup(entries, uri),
        entry.0@ == uri && lookup(entries, uri).is_none() ==> lookup(entries.push(entry), uri)
            == Some(items_view(entry.1@)),
    decreases entries.len(),
{
    if entries.len() == 0 {
        assert(entries.push(entry).drop_first() =~= entries);
    } else {
        assert(entries.push(entry)[0] == entries[0]);
        assert(entries.push(entry).drop_first() =~= entries.drop_first().push(entry));
        lemma_lookup_push(entries.drop_first(), entry, uri);
    }
}

impl Workspace {
    /// Creates an empty table.
    pub fn new() -> (w: Self)
        ensures
            w@ == Map::<Seq<char>, Seq<ItemView>>::empty(),
    {
        let w = Workspace { documents: Vec::new() };
        assert(w@ =~= Map::<Seq<char>, Seq<ItemView>>::empty());
        w
    }

    /// Takes the document with the given name out of the table, if there is
    /// one: the editor closed it. Other documents stay as they are.
    pub fn close(&mut self, uri: &str)
        ensures
            final(self)@ == old(self)@.remove(uri@),
    {
        let ghost before = self.documents@;
        let mut i: usize = 0;
        while i < self.documents.len()
            invariant
                i <= self.documents@.len(),
                forall|k: int| 0 <= k < i ==> (#[trigger] self.documents@[k]).0@ != uri@,
                forall|other: Seq<char>|
                    other != uri@ ==> lookup(self.documents@, other) == lookup(before, other),
            decreases self.documents@.len() - i,
        {
            if same_text(self.documents[i].0.as_str(), uri) {
                proof {
                    assert forall|other: Seq<char>| other != uri@ implies lookup(
                        self.documents@.remove(i as int),
                        other,
                    ) == lookup(before, other) by {
                        lemma_lookup_remove(self.documents@, i as int, other);
                    }
                }
                let _ = self.documents.remove(i);
            } else {
                i += 1;
            }
        }
        proof {
            lemma_lookup_absent(self.documents@, uri@);
            assert(self@ =~= old(self)@.remove(uri@));
        }
    }

    /// Reads the text of the document with the given name: the editor opened
    /// or changed it. If the text parses, the table holds the new tree under
    /// that name and nothing is to be reported. If not, the table holds no
    /// document of that name and the error is to be reported. Returns the
    /// diagnostics to publish for the document: none, or the one for the
    /// error.
    pub fn update(&mut self, uri: String, text: &str) -> (report: Vec<Diagnostic>)
        ensures
            match document(text.spec_bytes()) {
                Ok(doc) => final(self)@ == old(self)@.insert(uri@, doc) && report@.len() == 0,
                Err(e) => {
                    &&& final(self)@ == old(self)@.remove(uri@)
                    &&& report@.len() == 1
                    &&& report@[0].message@ == diagnostic_message(e)
                    &&& report@[0].range == diagnostic_range(e)
                    &&& report@[0].severity == Severity::Error
                },
            },
    {
        self.close(uri.as_str());
        let mut parser = Parser::from(text);
        let mut report: Vec<Diagnostic> = Vec::new();
        match parser.parse() {
            Ok(tree) => {
                proof {
                    let entry = (uri, tree);
                    assert forall|other: Seq<char>|
                        lookup(self.documents@.push(entry), other) == (if other == uri@ {
                            Some(items_view(tree@))
                        } else {
                            lookup(self.documents@, other)
                        }) by {
                        lemma_lookup_push(self.documents@, entry, other);
                        if other == uri@ {
                            assert(!old(self)@.remove(uri@).dom().contains(uri@));
                            assert(lookup(self.documents@, other).is_none());
                        }
                    }
                }
                let ghost closed = self@;
                self.documents.push((uri, tree));
                assert(self@ =~= closed.insert(uri@, items_view(tree@)));
                assert(closed.insert(uri@, items_view(tree@)) =~= old(self)@.insert(
                    uri@,
                    items_view(tree@),
                ));
            },
            Err(err) => {
                report.push(diagnostic(&err));
            },
        }
        report
    }

    /// Formats the document with the given name, or returns `None` if the
    /// table holds none of that name.
    pub fn format(&self, uri: &str) -> (text: Option<String>)
        ensures
            match text {
                Some(t) => self@.dom().contains(uri@) && t@ == document_text(self@[uri@]),
                None => !self@.dom().contains(uri@),
            },
    {
        let mut i: usize = 0;
        assert(self.documents@.subrange(0, self.documents@.len() as int) =~= self.documents@);
        while i < self.documents.len()
            invariant
                i <= self.documents@.len(),
                lookup(self.documents@, uri@) == lookup(
                    self.documents@.subrange(i as int, self.documents@.len() as int),
                    uri@,
                ),
            decreases self.documents@.len() - i,
        {
            let ghost rest = self.documents@.subrange(i as int, self.documents@.len() as int);
            assert(rest[0] == self.documents@[i as int]);
            assert(rest.drop_first() =~= self.documents@.subrange(
                i + 1,
                self.documents@.len() as int,
            ));
            if same_text(self.documents[i].0.as_str(), uri) {
                return Some(fmt(self.documents[i].1.as_slice()));
            }
            i += 1;
        }
        None
    }
}

} // verus!
