//! Types representing the sitemap structure, and their mathematical views.

use vstd::prelude::*;

verus! {

/// A book subtarget (e.g. `all`, `print`).
/// Parameters are only allowed for chapters.
/// Two subtargets stand for the same build variant when their names are equal.
#[derive(Clone, Debug)]
pub struct Subtarget {
    pub name: String,
    pub parameters: Vec<String>,
}

/// A piece of meta data in the book hierarchy.
#[derive(Clone, Debug)]
pub struct Markers {
    pub includes: IncludeMarker,
    pub exclude: ExcludeMarker,
    pub alias: AliasMarker,
    pub todo: Option<TodoMarker>,
    pub after: Option<AfterMarker>,
}

/// Include a range of subtargets / headings.
#[derive(Clone, Debug)]
pub struct IncludeMarker {
    pub subtargets: Vec<Subtarget>,
}

/// Exclude a range of subtargets / headings.
#[derive(Clone, Debug)]
pub struct ExcludeMarker {
    pub subtargets: Vec<Subtarget>,
}

/// Leave a todo message.
#[derive(Clone, Debug)]
pub struct TodoMarker {
    pub message: String,
}

/// Include something after this node.
#[derive(Clone, Debug)]
pub struct AfterMarker {
    pub path: String,
}

/// Define aliases for subtargets: pairs of alias name and target subtarget name,
/// in the order in which they were declared or inherited. Self-validation
/// accepts each alias name once only, so that the pairs form a mapping.
#[derive(Clone, Debug)]
pub struct AliasMarker {
    pub mapping: Vec<(String, String)>,
}

/// A complete book specification.
#[derive(Clone, Debug)]
pub struct Book {
    pub title: String,
    pub markers: Markers,
    pub parts: Vec<Part>,
}

/// A part specification.
#[derive(Clone, Debug)]
pub struct Part {
    pub title: String,
    pub markers: Markers,
    pub chapters: Vec<Chapter>,
}

/// A chapter / article specification.
#[derive(Clone, Debug)]
pub struct Chapter {
    pub title: String,
    pub path: String,
    pub markers: Markers,
    pub revision: String,
}

/// The mathematical value of a [`Subtarget`].
pub struct SubtargetV {
    pub name: Seq<char>,
    pub parameters: Seq<Seq<char>>,
}

/// The mathematical value of a [`Markers`].
pub struct MarkersV {
    pub includes: Seq<SubtargetV>,
    pub exclude: Seq<SubtargetV>,
    pub alias: Seq<(Seq<char>, Seq<char>)>,
    pub todo: Option<Seq<char>>,
    pub after: Option<Seq<char>>,
}

/// The mathematical value of a [`Chapter`].
pub struct ChapterV {
    pub title: Seq<char>,
    pub path: Seq<char>,
    pub markers: MarkersV,
    pub revision: Seq<char>,
}

/// The mathematical value of a [`Part`].
pub struct PartV {
    pub title: Seq<char>,
    pub markers: MarkersV,
    pub chapters: Seq<ChapterV>,
}

/// The mathematical value of a [`Book`].
pub struct BookV {
    pub title: Seq<char>,
    pub markers: MarkersV,
    pub parts: Seq<PartV>,
}

pub open spec fn strings_view(v: Seq<String>) -> Seq<Seq<char>> {
    v.map_values(|s: String| s@)
}

pub open spec fn subtargets_view(v: Seq<Subtarget>) -> Seq<SubtargetV> {
    v.map_values(|s: Subtarget| s@)
}

pub open spec fn pairs_view(v: Seq<(String, String)>) -> Seq<(Seq<char>, Seq<char>)> {
    v.map_values(|p: (String, String)| (p.0@, p.1@))
}

impl View for Subtarget {
    type V = SubtargetV;

    open spec fn view(&self) -> SubtargetV {
        SubtargetV { name: self.name@, parameters: strings_view(self.parameters@) }
    }
}

impl View for IncludeMarker {
    type V = Seq<SubtargetV>;

    open spec fn view(&self) -> Seq<SubtargetV> {
        subtargets_view(self.subtargets@)
    }
}

impl View for ExcludeMarker {
    type V = Seq<SubtargetV>;

    open spec fn view(&self) -> Seq<SubtargetV> {
        subtargets_view(self.subtargets@)
    }
}

impl View for AliasMarker {
    type V = Seq<(Seq<char>, Seq<char>)>;

    open spec fn view(&self) -> Seq<(Seq<char>, Seq<char>)> {
        pairs_view(self.mapping@)
    }
}

impl View for Markers {
    type V = MarkersV;

    open spec fn view(&self) -> MarkersV {
        MarkersV {
            includes: self.includes@,
            exclude: self.exclude@,
            alias: self.alias@,
            todo: match self.todo {
                Some(t) => Some(t.message@),
                None => None,
            },
            after: match self.after {
                Some(a) => Some(a.path@),
                None => None,
            },
        }
    }
}

impl View for Chapter {
    type V = ChapterV;

    open spec fn view(&self) -> ChapterV {
        ChapterV {
            title: self.title@,
            path: self.path@,
            markers: self.markers@,
            revision: self.revision@,
        }
    }
}

pub open spec fn chapters_view(v: Seq<Chapter>) -> Seq<ChapterV> {
    v.map_values(|c: Chapter| c@)
}

impl View for Part {
    type V = PartV;

    open spec fn view(&self) -> PartV {
        PartV { title: self.title@, markers: self.markers@, chapters: chapters_view(self.chapters@) }
    }
}

pub open spec fn parts_view(v: Seq<Part>) -> Seq<PartV> {
    v.map_values(|p: Part| p@)
}

impl View for Book {
    type V = BookV;

    open spec fn view(&self) -> BookV {
        BookV { title: self.title@, markers: self.markers@, parts: parts_view(self.parts@) }
    }
}

/// Markers that say nothing.
pub open spec fn empty_markers() -> MarkersV {
    MarkersV {
        includes: Seq::empty(),
        exclude: Seq::empty(),
        alias: Seq::empty(),
        todo: None,
        after: None,
    }
}

impl Default for Markers {
    fn default() -> (r: Markers)
        ensures
            r@ == empty_markers(),
    {
        let r = Markers {
            includes: IncludeMarker { subtargets: Vec::new() },
            exclude: ExcludeMarker { subtargets: Vec::new() },
            alias: AliasMarker { mapping: Vec::new() },
            todo: None,
            after: None,
        };
        assert(r@.includes =~= Seq::<SubtargetV>::empty());
        assert(r@.exclude =~= Seq::<SubtargetV>::empty());
        assert(r@.alias =~= Seq::<(Seq<char>, Seq<char>)>::empty());
        r
    }
}

impl PartialEq for Subtarget {
    /// Two subtargets stand for the same build variant when their names are equal.
    fn eq(&self, other: &Subtarget) -> (r: bool) {
        self.name == other.name
    }
}

impl vstd::std_specs::cmp::PartialEqSpecImpl for Subtarget {
    open spec fn obeys_eq_spec() -> bool {
        true
    }

    open spec fn eq_spec(&self, other: &Subtarget) -> bool {
        self.name@ == other.name@
    }
}

impl Eq for Subtarget {

}

impl Subtarget {
    /// A copy of this subtarget.
    pub fn copy(&self) -> (r: Subtarget)
        ensures
            r@ == self@,
    {
        let mut parameters: Vec<String> = Vec::new();
        let mut i: usize = 0;
        while i < self.parameters.len()
            invariant
                i <= self.parameters.len(),
                parameters@.len() == i,
                forall|j: int| 0 <= j < i ==> #[trigger] parameters@[j]@ == self.parameters@[j]@,
            decreases self.parameters.len() - i,
        {
            parameters.push(self.parameters[i].clone());
            i = i + 1;
        }
        assert(strings_view(parameters@) =~= strings_view(self.parameters@));
        Subtarget { name: self.name.clone(), parameters }
    }

    /// A copy of this subtarget under another name.
    pub fn renamed(&self, name: &String) -> (r: Subtarget)
        ensures
            r@ == (SubtargetV { name: name@, parameters: self@.parameters }),
    {
        let mut r = self.copy();
        r.name = name.clone();
        r
    }
}

} // verus!
