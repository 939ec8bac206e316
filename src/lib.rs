//! Book sitemaps: extraction of a book description from a document tree and
//! normalization of the build markers along the book hierarchy.

pub mod builder;
pub mod consumer;
pub mod error;
pub mod laws;
pub mod normalize;
pub mod sitemap;
pub mod text;
pub mod tree;

pub use builder::{book, chapter, marker_list, part, subtarget_list};
pub use consumer::{find_chapter, namespaced, selects};
pub use error::{ErrorV, SitemapError};
pub use normalize::{child_overrides, deny_parameters, expand_aliases, propagate, prune, Normalize};
pub use sitemap::{
    AfterMarker, AliasMarker, Book, BookV, Chapter, ChapterV, ExcludeMarker, IncludeMarker,
    Markers, MarkersV, Part, PartV, Subtarget, SubtargetV, TodoMarker,
};
pub use tree::{Document, Element, Heading, InternalReference, List, ListItem, Other};

use vstd::prelude::*;

verus! {

/// Reads the book that a parsed sitemap document describes, with its markers
/// normalized.
pub fn parse_sitemap(tree: &Element) -> (r: Result<Book, SitemapError>)
    ensures
        error::result_view(r) == (match builder::book_spec(*tree) {
            Err(e) => Err(e),
            Ok(b) => normalize::book_normalized(b),
        }),
{
    book(tree)
}

} // verus!
