//! Failures of extraction and normalization.

use vstd::prelude::*;

verus! {

/// Why a sitemap could not be built. Every failure aborts the whole build.
#[derive(Clone, Debug)]
pub enum SitemapError {
    /// The root of the tree is not a document (line of the root).
    NotADocument { line: usize },
    /// The document has no heading of depth one (line of the root).
    NoBookHeading { line: usize },
    /// A chapter list item holds no reference to an article (line of the item).
    MissingReference { line: usize },
    /// A marker or subtarget list holds something else than list items (line of the list).
    NotAListItem { line: usize },
    /// A marker list item has an empty marker id (line of the item).
    EmptyMarker { line: usize },
    /// A marker list item names an unknown marker (line of the item, folded id).
    UnknownMarker { line: usize, id: String },
    /// A subtarget is included and excluded by the same markers.
    Conflict { name: String },
    /// An alias name is itself included or excluded, or an earlier alias has it.
    AliasCollision { alias: String },
    /// An alias points to a subtarget that is neither included nor excluded.
    DanglingAlias { alias: String, target: String },
    /// An included subtarget carries parameters above the chapter level.
    IncludeParameters {},
    /// An excluded subtarget carries parameters above the chapter level.
    ExcludeParameters {},
}

/// The mathematical value of a [`SitemapError`].
pub enum ErrorV {
    NotADocument { line: nat },
    NoBookHeading { line: nat },
    MissingReference { line: nat },
    NotAListItem { line: nat },
    EmptyMarker { line: nat },
    UnknownMarker { line: nat, id: Seq<char> },
    Conflict { name: Seq<char> },
    AliasCollision { alias: Seq<char> },
    DanglingAlias { alias: Seq<char>, target: Seq<char> },
    IncludeParameters {},
    ExcludeParameters {},
}

impl View for SitemapError {
    type V = ErrorV;

    open spec fn view(&self) -> ErrorV {
        match self {
            SitemapError::NotADocument { line } => ErrorV::NotADocument { line: *line as nat },
            SitemapError::NoBookHeading { line } => ErrorV::NoBookHeading { line: *line as nat },
            SitemapError::MissingReference { line } => ErrorV::MissingReference {
                line: *line as nat,
            },
            SitemapError::NotAListItem { line } => ErrorV::NotAListItem { line: *line as nat },
            SitemapError::EmptyMarker { line } => ErrorV::EmptyMarker { line: *line as nat },
            SitemapError::UnknownMarker { line, id } => ErrorV::UnknownMarker {
                line: *line as nat,
                id: id@,
            },
            SitemapError::Conflict { name } => ErrorV::Conflict { name: name@ },
            SitemapError::AliasCollision { alias } => ErrorV::AliasCollision { alias: alias@ },
            SitemapError::DanglingAlias { alias, target } => ErrorV::DanglingAlias {
                alias: alias@,
                target: target@,
            },
            SitemapError::IncludeParameters {  } => ErrorV::IncludeParameters {  },
            SitemapError::ExcludeParameters {  } => ErrorV::ExcludeParameters {  },
        }
    }
}

/// The view of a result whose error is a [`SitemapError`].
pub open spec fn result_view<T: View>(r: Result<T, SitemapError>) -> Result<T::V, ErrorV> {
    match r {
        Ok(v) => Ok(v@),
        Err(e) => Err(e@),
    }
}

} // verus!
