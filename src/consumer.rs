//! Queries of build tooling on a normalized book: which chapters a subtarget
//! selects, where a chapter is, and its markers under a target's namespace.

use vstd::prelude::*;
use vstd::string::StringExecFns;

use crate::normalize::{find_named, first_named, has_name};
use crate::sitemap::{
    subtargets_view, AliasMarker, AfterMarker, Book, BookV, Chapter, ChapterV, ExcludeMarker,
    IncludeMarker, Markers, MarkersV, Subtarget, SubtargetV, TodoMarker,
};
use crate::text::{lower_of, lowercase, trim, trimmed};

verus! {

/// The chapter is built for subtarget `n`: it includes `n`, or it excludes `n`
/// only partially (its first exclude entry of that name lists exceptions).
pub open spec fn selected(c: ChapterV, n: Seq<char>) -> bool {
    has_name(c.markers.includes, n) || match first_named(c.markers.exclude, n) {
        Some(i) => c.markers.exclude[i].parameters.len() > 0,
        None => false,
    }
}

/// Whether the chapter is built for the subtarget named `subtarget`.
pub fn selects(chapter: &Chapter, subtarget: &String) -> (r: bool)
    ensures
        r == selected(chapter@, subtarget@),
{
    if find_named(&chapter.markers.includes.subtargets, subtarget).is_some() {
        return true;
    }
    match find_named(&chapter.markers.exclude.subtargets, subtarget) {
        Some(i) => chapter.markers.exclude.subtargets[i].parameters.len() > 0,
        None => false,
    }
}

/// `n` under the namespace of `target`: `target.n`.
pub open spec fn qualified(target: Seq<char>, n: Seq<char>) -> Seq<char> {
    target + seq!['.'] + n
}

/// The subtargets of `s`, each renamed into the namespace of `target`.
pub open spec fn qualified_all(s: Seq<SubtargetV>, target: Seq<char>) -> Seq<SubtargetV> {
    s.map_values(|x: SubtargetV| SubtargetV { name: qualified(target, x.name), parameters: x.parameters })
}

/// The markers with their included and excluded subtargets renamed into the
/// namespace of `target`.
pub open spec fn namespaced_markers(m: MarkersV, target: Seq<char>) -> MarkersV {
    MarkersV {
        includes: qualified_all(m.includes, target),
        exclude: qualified_all(m.exclude, target),
        ..m
    }
}

fn qualify_all(s: &Vec<Subtarget>, target: &String) -> (r: Vec<Subtarget>)
    ensures
        subtargets_view(r@) == qualified_all(subtargets_view(s@), target@),
{
    let mut r: Vec<Subtarget> = Vec::new();
    let mut i: usize = 0;
    while i < s.len()
        invariant
            i <= s.len(),
            r@.len() == i,
            forall|j: int|
                0 <= j < i ==> (#[trigger] r@[j])@ == (SubtargetV {
                    name: qualified(target@, s@[j]@.name),
                    parameters: s@[j]@.parameters,
                }),
        decreases s.len() - i,
    {
        let prefix = target.clone().concat(".");
        proof {
            reveal_strlit(".");
        }
        let name = prefix.concat(s[i].name.as_str());
        assert(name@ =~= qualified(target@, s@[i as int]@.name));
        let x = s[i].renamed(&name);
        r.push(x);
        i = i + 1;
    }
    assert(subtargets_view(r@) =~= qualified_all(subtargets_view(s@), target@));
    r
}

/// The markers with their included and excluded subtargets renamed into the
/// namespace of `target` (`print` becomes `latex.print` for target `latex`).
pub fn namespaced(markers: &Markers, target: &String) -> (r: Markers)
    ensures
        r@ == namespaced_markers(markers@, target@),
{
    let mut mapping: Vec<(String, String)> = Vec::new();
    let mut k: usize = 0;
    while k < markers.alias.mapping.len()
        invariant
            k <= markers.alias.mapping.len(),
            mapping@.len() == k,
            forall|j: int|
                0 <= j < k ==> (#[trigger] mapping@[j]).0@ == markers.alias.mapping@[j].0@
                    && mapping@[j].1@ == markers.alias.mapping@[j].1@,
        decreases markers.alias.mapping.len() - k,
    {
        let e = (markers.alias.mapping[k].0.clone(), markers.alias.mapping[k].1.clone());
        mapping.push(e);
        k = k + 1;
    }
    let r = Markers {
        includes: IncludeMarker { subtargets: qualify_all(&markers.includes.subtargets, target) },
        exclude: ExcludeMarker { subtargets: qualify_all(&markers.exclude.subtargets, target) },
        alias: AliasMarker { mapping },
        todo: match &markers.todo {
            Some(t) => Some(TodoMarker { message: t.message.clone() }),
            None => None,
        },
        after: match &markers.after {
            Some(a) => Some(AfterMarker { path: a.path.clone() }),
            None => None,
        },
    };
    assert(r@.alias =~= markers@.alias);
    r
}

/// The path of a chapter, or an article name, as compared when looking up a
/// chapter: trimmed and folded to lower case.
pub open spec fn path_key(s: Seq<char>) -> Seq<char> {
    lower_of(trimmed(s))
}

/// The chapter at position (`p`, `c`) of the book has the path `key` when compared.
pub open spec fn chapter_has_key(b: BookV, p: int, c: int, key: Seq<char>) -> bool {
    path_key(b.parts[p].chapters[c].path) == key
}

/// Finds the first chapter, in book order, whose path matches `article` when
/// both are trimmed and folded to lower case; returns its part and chapter index.
pub fn find_chapter(book: &Book, article: &String) -> (r: Option<(usize, usize)>)
    ensures
        match r {
            Some((p, c)) => {
                &&& p < book@.parts.len()
                &&& c < book@.parts[p as int].chapters.len()
                &&& chapter_has_key(book@, p as int, c as int, path_key(article@))
                &&& forall|q: int, d: int|
                    0 <= q < book@.parts.len() && 0 <= d < book@.parts[q].chapters.len() && (q < p
                        || (q == p && d < c)) ==> !chapter_has_key(book@, q, d, path_key(article@))
            },
            None => forall|q: int, d: int|
                0 <= q < book@.parts.len() && 0 <= d < book@.parts[q].chapters.len()
                    ==> !chapter_has_key(book@, q, d, path_key(article@)),
        },
{
    let t = trim(article.as_str());
    let key = lowercase(t.as_str());
    let ghost b = book@;
    let mut p: usize = 0;
    while p < book.parts.len()
        invariant
            p <= book.parts.len(),
            b == book@,
            key@ == path_key(article@),
            forall|q: int, d: int|
                0 <= q < p && 0 <= d < b.parts[q].chapters.len() ==> !chapter_has_key(b, q, d, key@),
        decreases book.parts.len() - p,
    {
        let part = &book.parts[p];
        assert(b.parts[p as int] == part@);
        let mut c: usize = 0;
        while c < part.chapters.len()
            invariant
                p < book.parts.len(),
                part == &book.parts[p as int],
                b == book@,
                b.parts[p as int] == part@,
                key@ == path_key(article@),
                c <= part.chapters.len(),
                forall|q: int, d: int|
                    0 <= q < p && 0 <= d < b.parts[q].chapters.len() ==> !chapter_has_key(b, q, d, key@),
                forall|d: int| 0 <= d < c ==> !chapter_has_key(b, p as int, d, key@),
            decreases part.chapters.len() - c,
        {
            let ct = trim(part.chapters[c].path.as_str());
            let ck = lowercase(ct.as_str());
            assert(b.parts[p as int].chapters[c as int] == part.chapters@[c as int]@);
            if ck == key {
                return Some((p, c));
            }
            c = c + 1;
        }
        p = p + 1;
    }
    None
}

} // verus!
