//! The structured document tree that a sitemap is read from. The wiki-markup
//! parser that produces it is outside this library: each node carries, besides
//! its children and its source line, the plain-text form of whatever the
//! extraction reads as text (a caption, a list item, a link target).

use vstd::prelude::*;

verus! {

/// A node of a parsed document.
#[derive(Debug)]
pub enum Element {
    Document(Document),
    Heading(Heading),
    List(List),
    ListItem(ListItem),
    InternalReference(InternalReference),
    /// Any other node (text, formatting, templates, ...).
    Other(Other),
}

/// The document root.
#[derive(Debug)]
pub struct Document {
    pub line: usize,
    pub content: Vec<Element>,
}

/// A heading; headings of greater depth are nested in its content.
#[derive(Debug)]
pub struct Heading {
    pub line: usize,
    pub depth: usize,
    /// The caption as plain text.
    pub caption: String,
    pub content: Vec<Element>,
}

/// A list of items.
#[derive(Debug)]
pub struct List {
    pub line: usize,
    pub content: Vec<Element>,
}

/// An item of a list.
#[derive(Debug)]
pub struct ListItem {
    pub line: usize,
    /// The content of the item as plain text.
    pub text: String,
    pub content: Vec<Element>,
}

/// A reference to another article.
#[derive(Debug)]
pub struct InternalReference {
    pub line: usize,
    /// The target as plain text.
    pub target: String,
    /// The displayed caption as plain text.
    pub caption: String,
}

/// A node that the extraction does not look into.
#[derive(Debug)]
pub struct Other {
    pub line: usize,
}

impl Element {
    pub open spec fn spec_line(&self) -> usize {
        match self {
            Element::Document(d) => d.line,
            Element::Heading(h) => h.line,
            Element::List(l) => l.line,
            Element::ListItem(i) => i.line,
            Element::InternalReference(r) => r.line,
            Element::Other(o) => o.line,
        }
    }

    /// The source line where the node starts.
    #[verifier::when_used_as_spec(spec_line)]
    pub fn line(&self) -> (r: usize)
        ensures
            r == self.spec_line(),
    {
        match self {
            Element::Document(d) => d.line,
            Element::Heading(h) => h.line,
            Element::List(l) => l.line,
            Element::ListItem(i) => i.line,
            Element::InternalReference(r) => r.line,
            Element::Other(o) => o.line,
        }
    }
}

} // verus!
