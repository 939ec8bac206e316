//! Extraction of the sitemap from a document tree.

use vstd::prelude::*;

use crate::error::{result_view, ErrorV, SitemapError};
use crate::normalize::{book_normalized, find_named, has_name, Normalize};
use crate::sitemap::{
    chapters_view, empty_markers, parts_view, strings_view, subtargets_view, AfterMarker, Book,
    BookV, Chapter, ChapterV, Markers, MarkersV, Part, PartV, Subtarget, SubtargetV, TodoMarker,
};
use crate::text::{
    after_colon, before_colon, is_word, lower_of, lowercase, split_at_colon, strip_colons,
    strip_trailing_colons, trim, trimmed,
};
use crate::tree::{Element, Heading, InternalReference, List, ListItem};

verus! {

// ---------------------------------------------------------------------------
// Looking into the children of a node.

/// The first element of `c` that `f` accepts, as `f` gives it.
pub open spec fn first_of<B>(c: Seq<Element>, f: spec_fn(Element) -> Option<B>) -> Option<B>
    decreases c.len(),
{
    if c.len() == 0 {
        None
    } else {
        match f(c[0]) {
            Some(b) => Some(b),
            None => first_of(c.drop_first(), f),
        }
    }
}

/// The elements of `c` after the first one that `f` accepts.
pub open spec fn rest_after<B>(c: Seq<Element>, f: spec_fn(Element) -> Option<B>) -> Seq<Element>
    decreases c.len(),
{
    if c.len() == 0 {
        c
    } else {
        match f(c[0]) {
            Some(_) => c.drop_first(),
            None => rest_after(c.drop_first(), f),
        }
    }
}

/// The results of `f` on the elements of `c` that it does not skip (`None`), in
/// order; the first failure ends it.
pub open spec fn gather<B>(c: Seq<Element>, f: spec_fn(Element) -> Option<Result<B, ErrorV>>) -> Result<
    Seq<B>,
    ErrorV,
>
    decreases c.len(),
{
    if c.len() == 0 {
        Ok(Seq::empty())
    } else {
        match gather(c.drop_last(), f) {
            Err(e) => Err(e),
            Ok(prev) => match f(c.last()) {
                None => Ok(prev),
                Some(Err(e)) => Err(e),
                Some(Ok(b)) => Ok(prev.push(b)),
            },
        }
    }
}

pub open spec fn list_in(e: Element) -> Option<List> {
    match e {
        Element::List(l) => Some(l),
        _ => None,
    }
}

/// The first list among `c`.
pub open spec fn first_list(c: Seq<Element>) -> Option<List> {
    first_of(c, |e: Element| list_in(e))
}

/// The elements of `c` after its first list.
pub open spec fn after_first_list(c: Seq<Element>) -> Seq<Element> {
    rest_after(c, |e: Element| list_in(e))
}

/// The first reference to an article among `c`.
pub open spec fn first_reference(c: Seq<Element>) -> Option<InternalReference> {
    first_of(
        c,
        |e: Element|
            match e {
                Element::InternalReference(r) => Some(r),
                _ => None,
            },
    )
}

/// The first heading of depth one among `c`.
pub open spec fn first_book_heading(c: Seq<Element>) -> Option<Heading> {
    first_of(
        c,
        |e: Element|
            match e {
                Element::Heading(h) => if h.depth == 1 {
                    Some(h)
                } else {
                    None
                },
                _ => None,
            },
    )
}

proof fn lemma_first_of_step<B>(c: Seq<Element>, f: spec_fn(Element) -> Option<B>, i: int)
    requires
        0 <= i < c.len(),
        f(c[i]) is None,
    ensures
        first_of(c.subrange(i, c.len() as int), f) == first_of(c.subrange(i + 1, c.len() as int), f),
        rest_after(c.subrange(i, c.len() as int), f) == rest_after(
            c.subrange(i + 1, c.len() as int),
            f,
        ),
{
    assert(c.subrange(i, c.len() as int).drop_first() =~= c.subrange(i + 1, c.len() as int));
}

proof fn lemma_first_of_found<B>(c: Seq<Element>, f: spec_fn(Element) -> Option<B>, i: int)
    requires
        0 <= i < c.len(),
        f(c[i]) is Some,
    ensures
        first_of(c.subrange(i, c.len() as int), f) == f(c[i]),
        rest_after(c.subrange(i, c.len() as int), f) == c.subrange(i + 1, c.len() as int),
{
    assert(c.subrange(i, c.len() as int).drop_first() =~= c.subrange(i + 1, c.len() as int));
}

proof fn lemma_gather_step<B>(
    c: Seq<Element>,
    f: spec_fn(Element) -> Option<Result<B, ErrorV>>,
    i: int,
)
    requires
        0 <= i < c.len(),
    ensures
        gather(c.subrange(0, i + 1), f) == (match gather(c.subrange(0, i), f) {
            Err(e) => Err(e),
            Ok(prev) => match f(c[i]) {
                None => Ok(prev),
                Some(Err(e)) => Err(e),
                Some(Ok(b)) => Ok(prev.push(b)),
            },
        }),
{
    assert(c.subrange(0, i + 1).drop_last() =~= c.subrange(0, i));
}

proof fn lemma_gather_failure<B>(
    c: Seq<Element>,
    f: spec_fn(Element) -> Option<Result<B, ErrorV>>,
    i: int,
    e: ErrorV,
)
    requires
        0 <= i <= c.len(),
        gather(c.subrange(0, i), f) == Err::<Seq<B>, ErrorV>(e),
    ensures
        gather(c, f) == Err::<Seq<B>, ErrorV>(e),
    decreases c.len() - i,
{
    if i < c.len() {
        lemma_gather_step(c, f, i);
        lemma_gather_failure(c, f, i + 1, e);
    } else {
        assert(c.subrange(0, i) =~= c);
    }
}

/// Finds the first list among the children `c` from index `start` on.
fn find_list(c: &Vec<Element>, start: usize) -> (r: Option<(usize, &List)>)
    requires
        start <= c.len(),
    ensures
        match r {
            Some((k, l)) => {
                &&& start <= k < c.len()
                &&& first_list(c@.subrange(start as int, c.len() as int)) == Some(*l)
                &&& after_first_list(c@.subrange(start as int, c.len() as int)) == c@.subrange(
                    k + 1,
                    c.len() as int,
                )
            },
            None => first_list(c@.subrange(start as int, c.len() as int)) is None,
        },
{
    let ghost f = |e: Element| list_in(e);
    let mut i: usize = start;
    while i < c.len()
        invariant
            start <= i <= c.len(),
            f == (|e: Element| list_in(e)),
            first_of(c@.subrange(start as int, c.len() as int), f) == first_of(
                c@.subrange(i as int, c.len() as int),
                f,
            ),
            rest_after(c@.subrange(start as int, c.len() as int), f) == rest_after(
                c@.subrange(i as int, c.len() as int),
                f,
            ),
        decreases c.len() - i,
    {
        match &c[i] {
            Element::List(l) => {
                proof {
                    lemma_first_of_found(c@, f, i as int);
                }
                return Some((i, l));
            },
            _ => {
                proof {
                    lemma_first_of_step(c@, f, i as int);
                }
            },
        }
        i = i + 1;
    }
    None
}

/// Finds the first reference to an article among `c`.
fn find_reference(c: &Vec<Element>) -> (r: Option<&InternalReference>)
    ensures
        match r {
            Some(x) => first_reference(c@) == Some(*x),
            None => first_reference(c@) is None,
        },
{
    let ghost f = |e: Element|
        match e {
            Element::InternalReference(r) => Some(r),
            _ => None,
        };
    assert(c@.subrange(0, c.len() as int) =~= c@);
    let mut i: usize = 0;
    while i < c.len()
        invariant
            i <= c.len(),
            f == (|e: Element|
                match e {
                    Element::InternalReference(r) => Some(r),
                    _ => None,
                }),
            first_of(c@, f) == first_of(c@.subrange(i as int, c.len() as int), f),
        decreases c.len() - i,
    {
        match &c[i] {
            Element::InternalReference(x) => {
                proof {
                    lemma_first_of_found(c@, f, i as int);
                }
                return Some(x);
            },
            _ => {
                proof {
                    lemma_first_of_step(c@, f, i as int);
                }
            },
        }
        i = i + 1;
    }
    None
}

/// Finds the first heading of depth one among `c`.
fn find_book_heading(c: &Vec<Element>) -> (r: Option<&Heading>)
    ensures
        match r {
            Some(h) => first_book_heading(c@) == Some(*h),
            None => first_book_heading(c@) is None,
        },
{
    let ghost f = |e: Element|
        match e {
            Element::Heading(h) => if h.depth == 1 {
                Some(h)
            } else {
                None
            },
            _ => None,
        };
    assert(c@.subrange(0, c.len() as int) =~= c@);
    let mut i: usize = 0;
    while i < c.len()
        invariant
            i <= c.len(),
            f == (|e: Element|
                match e {
                    Element::Heading(h) => if h.depth == 1 {
                        Some(h)
                    } else {
                        None
                    },
                    _ => None,
                }),
            first_of(c@, f) == first_of(c@.subrange(i as int, c.len() as int), f),
        decreases c.len() - i,
    {
        match &c[i] {
            Element::Heading(h) => {
                if h.depth == 1 {
                    proof {
                        lemma_first_of_found(c@, f, i as int);
                    }
                    return Some(h);
                }
                proof {
                    lemma_first_of_step(c@, f, i as int);
                }
            },
            _ => {
                proof {
                    lemma_first_of_step(c@, f, i as int);
                }
            },
        }
        i = i + 1;
    }
    None
}

/// Finds the first list among `c`.
fn find_first_list(c: &Vec<Element>) -> (r: Option<&List>)
    ensures
        match r {
            Some(l) => first_list(c@) == Some(*l),
            None => first_list(c@) is None,
        },
{
    assert(c@.subrange(0, c.len() as int) =~= c@);
    match find_list(c, 0) {
        Some((_, l)) => Some(l),
        None => None,
    }
}

// ---------------------------------------------------------------------------
// Subtarget lists.

/// The trimmed texts of the items of a parameter list.
pub open spec fn parameters_in(c: Seq<Element>) -> Seq<Seq<char>>
    decreases c.len(),
{
    if c.len() == 0 {
        Seq::empty()
    } else {
        let prev = parameters_in(c.drop_last());
        match c.last() {
            Element::ListItem(i) => prev.push(trimmed(i.text@)),
            _ => prev,
        }
    }
}

/// The subtarget that an item of a subtarget list names: its text trimmed,
/// stripped of trailing colons and folded to lower case; its parameters are the
/// items of the first list nested in it.
pub open spec fn subtarget_of(i: ListItem) -> SubtargetV {
    SubtargetV {
        name: lower_of(strip_colons(trimmed(i.text@))),
        parameters: match first_list(i.content@) {
            Some(l) => parameters_in(l.content@),
            None => Seq::empty(),
        },
    }
}

/// The subtargets of a subtarget list with children `c` at line `line`: one per
/// name, the first item of a name wins; anything but a list item fails.
pub open spec fn subtargets_in(c: Seq<Element>, line: usize) -> Result<Seq<SubtargetV>, ErrorV>
    decreases c.len(),
{
    if c.len() == 0 {
        Ok(Seq::empty())
    } else {
        match subtargets_in(c.drop_last(), line) {
            Err(e) => Err(e),
            Ok(prev) => match c.last() {
                Element::ListItem(i) => if has_name(prev, subtarget_of(i).name) {
                    Ok(prev)
                } else {
                    Ok(prev.push(subtarget_of(i)))
                },
                _ => Err(ErrorV::NotAListItem { line: line as nat }),
            },
        }
    }
}

proof fn lemma_subtargets_failure(c: Seq<Element>, line: usize, i: int, e: ErrorV)
    requires
        0 <= i <= c.len(),
        subtargets_in(c.subrange(0, i), line) == Err::<Seq<SubtargetV>, ErrorV>(e),
    ensures
        subtargets_in(c, line) == Err::<Seq<SubtargetV>, ErrorV>(e),
    decreases c.len() - i,
{
    if i < c.len() {
        assert(c.subrange(0, i + 1).drop_last() =~= c.subrange(0, i));
        lemma_subtargets_failure(c, line, i + 1, e);
    } else {
        assert(c.subrange(0, i) =~= c);
    }
}

/// The trimmed texts of the items of a parameter list.
fn parameters(list: &List) -> (r: Vec<String>)
    ensures
        strings_view(r@) == parameters_in(list.content@),
{
    let c = &list.content;
    let mut r: Vec<String> = Vec::new();
    let mut i: usize = 0;
    assert(strings_view(r@) =~= parameters_in(c@.subrange(0, 0)));
    while i < c.len()
        invariant
            i <= c.len(),
            c == &list.content,
            strings_view(r@) == parameters_in(c@.subrange(0, i as int)),
        decreases c.len() - i,
    {
        assert(c@.subrange(0, i + 1).drop_last() =~= c@.subrange(0, i as int));
        match &c[i] {
            Element::ListItem(item) => {
                let t = trim(item.text.as_str());
                let ghost before = strings_view(r@);
                r.push(t);
                assert(strings_view(r@) =~= before.push(t@));
            },
            _ => {},
        }
        i = i + 1;
    }
    assert(c@.subrange(0, i as int) =~= c@);
    r
}

/// The subtarget that an item of a subtarget list names.
fn subtarget_item(item: &ListItem) -> (r: Subtarget)
    ensures
        r@ == subtarget_of(*item),
{
    let t = trim(item.text.as_str());
    let s = strip_trailing_colons(t.as_str());
    let name = lowercase(s.as_str());
    let params = match find_first_list(&item.content) {
        Some(l) => parameters(l),
        None => {
            let v: Vec<String> = Vec::new();
            assert(strings_view(v@) =~= Seq::<Seq<char>>::empty());
            v
        },
    };
    Subtarget { name, parameters: params }
}

/// Reads a subtarget list: one subtarget per name, in the order of the items;
/// a later item of a name already read is dropped.
pub fn subtarget_list(list: &List) -> (r: Result<Vec<Subtarget>, SitemapError>)
    ensures
        match r {
            Ok(v) => subtargets_in(list.content@, list.line) == Ok::<Seq<SubtargetV>, ErrorV>(
                subtargets_view(v@),
            ),
            Err(e) => subtargets_in(list.content@, list.line) == Err::<Seq<SubtargetV>, ErrorV>(
                e@,
            ),
        },
{
    let c = &list.content;
    let mut r: Vec<Subtarget> = Vec::new();
    let mut i: usize = 0;
    assert(subtargets_view(r@) =~= Seq::<SubtargetV>::empty());
    assert(c@.subrange(0, 0) =~= Seq::<Element>::empty());
    while i < c.len()
        invariant
            i <= c.len(),
            c == &list.content,
            subtargets_in(c@.subrange(0, i as int), list.line) == Ok::<Seq<SubtargetV>, ErrorV>(
                subtargets_view(r@),
            ),
        decreases c.len() - i,
    {
        assert(c@.subrange(0, i + 1).drop_last() =~= c@.subrange(0, i as int));
        match &c[i] {
            Element::ListItem(item) => {
                let s = subtarget_item(item);
                if find_named(&r, &s.name).is_none() {
                    let ghost before = subtargets_view(r@);
                    r.push(s);
                    assert(subtargets_view(r@) =~= before.push(s@));
                }
            },
            _ => {
                proof {
                    lemma_subtargets_failure(
                        c@,
                        list.line,
                        i + 1,
                        ErrorV::NotAListItem { line: list.line as nat },
                    );
                }
                return Err(SitemapError::NotAListItem { line: list.line });
            },
        }
        i = i + 1;
    }
    assert(c@.subrange(0, i as int) =~= c@);
    Ok(r)
}

// ---------------------------------------------------------------------------
// Marker lists.

/// The marker id that includes subtargets.
pub open spec fn inclusion_id() -> Seq<char> {
    seq!['i', 'n', 'c', 'l', 'u', 'd', 'e']
}

/// The marker id that excludes subtargets.
pub open spec fn exclusion_id() -> Seq<char> {
    seq!['e', 'x', 'c', 'l', 'u', 'd', 'e']
}

/// The marker id of a todo note.
pub open spec fn todo_id() -> Seq<char> {
    seq!['t', 'o', 'd', 'o']
}

/// The marker id of a path to merge in after the node.
pub open spec fn after_id() -> Seq<char> {
    seq!['a', 'f', 't', 'e', 'r']
}

/// The marker id of an item of a marker list as written: its text before the
/// first colon, trimmed.
pub open spec fn marker_word(i: ListItem) -> Seq<char> {
    trimmed(before_colon(i.text@))
}

/// The marker id of an item of a marker list: its written id folded to lower case.
pub open spec fn marker_id(i: ListItem) -> Seq<char> {
    lower_of(marker_word(i))
}

/// The value of an item of a marker list: its text after the first colon, trimmed.
pub open spec fn marker_value(i: ListItem) -> Seq<char> {
    trimmed(after_colon(i.text@))
}

/// The markers `m` after reading the item `i` of a marker list.
pub open spec fn marker_step(m: MarkersV, i: ListItem) -> Result<MarkersV, ErrorV> {
    let id = marker_id(i);
    if marker_word(i).len() == 0 {
        Err(ErrorV::EmptyMarker { line: i.line as nat })
    } else if id == inclusion_id() {
        match first_list(i.content@) {
            Some(l) => match subtargets_in(l.content@, l.line) {
                Ok(s) => Ok(MarkersV { includes: s, ..m }),
                Err(e) => Err(e),
            },
            None => Ok(m),
        }
    } else if id == exclusion_id() {
        match first_list(i.content@) {
            Some(l) => match subtargets_in(l.content@, l.line) {
                Ok(s) => Ok(MarkersV { exclude: s, ..m }),
                Err(e) => Err(e),
            },
            None => Ok(m),
        }
    } else if id == todo_id() {
        Ok(MarkersV { todo: Some(marker_value(i)), ..m })
    } else if id == after_id() {
        Ok(MarkersV { after: Some(marker_value(i)), ..m })
    } else {
        Err(ErrorV::UnknownMarker { line: i.line as nat, id })
    }
}

/// The markers that a marker list with children `c` at line `line` declares,
/// read item after item; anything but a list item fails.
pub open spec fn markers_in(c: Seq<Element>, line: usize) -> Result<MarkersV, ErrorV>
    decreases c.len(),
{
    if c.len() == 0 {
        Ok(empty_markers())
    } else {
        match markers_in(c.drop_last(), line) {
            Err(e) => Err(e),
            Ok(m) => match c.last() {
                Element::ListItem(i) => marker_step(m, i),
                _ => Err(ErrorV::NotAListItem { line: line as nat }),
            },
        }
    }
}

proof fn lemma_markers_failure(c: Seq<Element>, line: usize, i: int, e: ErrorV)
    requires
        0 <= i <= c.len(),
        markers_in(c.subrange(0, i), line) == Err::<MarkersV, ErrorV>(e),
    ensures
        markers_in(c, line) == Err::<MarkersV, ErrorV>(e),
    decreases c.len() - i,
{
    if i < c.len() {
        assert(c.subrange(0, i + 1).drop_last() =~= c.subrange(0, i));
        lemma_markers_failure(c, line, i + 1, e);
    } else {
        assert(c.subrange(0, i) =~= c);
    }
}

/// Reads one item of a marker list into `markers`.
fn read_marker(markers: &mut Markers, item: &ListItem) -> (r: Result<(), SitemapError>)
    ensures
        match marker_step(old(markers)@, *item) {
            Ok(v) => r is Ok && final(markers)@ == v,
            Err(e) => r matches Err(x) && x@ == e,
        },
{
    let (head, tail) = split_at_colon(item.text.as_str());
    let t = trim(head.as_str());
    if t.as_str().unicode_len() == 0 {
        return Err(SitemapError::EmptyMarker { line: item.line });
    }
    let id = lowercase(t.as_str());
    let value = trim(tail.as_str());
    let w_in = vec!['i', 'n', 'c', 'l', 'u', 'd', 'e'];
    let w_ex = vec!['e', 'x', 'c', 'l', 'u', 'd', 'e'];
    let w_todo = vec!['t', 'o', 'd', 'o'];
    let w_after = vec!['a', 'f', 't', 'e', 'r'];
    assert(w_in@ == inclusion_id());
    assert(w_ex@ == exclusion_id());
    assert(w_todo@ == todo_id());
    assert(w_after@ == after_id());
    if is_word(id.as_str(), &w_in) {
        match find_first_list(&item.content) {
            Some(l) => match subtarget_list(l) {
                Ok(s) => {
                    markers.includes.subtargets = s;
                },
                Err(e) => {
                    return Err(e);
                },
            },
            None => {},
        }
        Ok(())
    } else if is_word(id.as_str(), &w_ex) {
        match find_first_list(&item.content) {
            Some(l) => match subtarget_list(l) {
                Ok(s) => {
                    markers.exclude.subtargets = s;
                },
                Err(e) => {
                    return Err(e);
                },
            },
            None => {},
        }
        Ok(())
    } else if is_word(id.as_str(), &w_todo) {
        markers.todo = Some(TodoMarker { message: value });
        Ok(())
    } else if is_word(id.as_str(), &w_after) {
        markers.after = Some(AfterMarker { path: value });
        Ok(())
    } else {
        Err(SitemapError::UnknownMarker { line: item.line, id })
    }
}

/// Reads a marker list: each item is `id: value`; the inclusion and exclusion
/// markers take their subtargets from the list nested in the item, the todo and
/// after markers take the value. Any other id fails.
pub fn marker_list(list: &List) -> (r: Result<Markers, SitemapError>)
    ensures
        result_view(r) == markers_in(list.content@, list.line),
{
    let c = &list.content;
    let mut m = Markers::default();
    let mut i: usize = 0;
    assert(c@.subrange(0, 0) =~= Seq::<Element>::empty());
    while i < c.len()
        invariant
            i <= c.len(),
            c == &list.content,
            markers_in(c@.subrange(0, i as int), list.line) == Ok::<MarkersV, ErrorV>(m@),
        decreases c.len() - i,
    {
        assert(c@.subrange(0, i + 1).drop_last() =~= c@.subrange(0, i as int));
        match &c[i] {
            Element::ListItem(item) => {
                match read_marker(&mut m, item) {
                    Ok(()) => {},
                    Err(e) => {
                        proof {
                            lemma_markers_failure(c@, list.line, i + 1, e@);
                        }
                        return Err(e);
                    },
                }
            },
            _ => {
                proof {
                    lemma_markers_failure(
                        c@,
                        list.line,
                        i + 1,
                        ErrorV::NotAListItem { line: list.line as nat },
                    );
                }
                return Err(SitemapError::NotAListItem { line: list.line });
            },
        }
        i = i + 1;
    }
    assert(c@.subrange(0, i as int) =~= c@);
    Ok(m)
}

// ---------------------------------------------------------------------------
// Chapters, parts and the book.

/// The markers of a node with children `c`: those of its first list, if any.
pub open spec fn markers_under(c: Seq<Element>) -> Result<MarkersV, ErrorV> {
    match first_list(c) {
        Some(l) => markers_in(l.content@, l.line),
        None => Ok(empty_markers()),
    }
}

/// The revision of a chapter that asks for the latest one.
pub open spec fn latest() -> Seq<char> {
    seq!['l', 'a', 't', 'e', 's', 't']
}

/// The chapter that an item of a chapter list describes: title and path from
/// its first reference to an article, markers from its first nested list.
pub open spec fn chapter_spec(i: ListItem) -> Result<ChapterV, ErrorV> {
    match first_reference(i.content@) {
        None => Err(ErrorV::MissingReference { line: i.line as nat }),
        Some(r) => match markers_under(i.content@) {
            Err(e) => Err(e),
            Ok(m) => Ok(
                ChapterV {
                    title: trimmed(r.caption@),
                    path: trimmed(r.target@),
                    markers: m,
                    revision: latest(),
                },
            ),
        },
    }
}

/// No item of the list holds a reference to an article among its children:
/// the list declares markers, not chapters.
pub open spec fn references_free(l: List) -> bool {
    forall|k: int|
        0 <= k < l.content@.len() ==> match #[trigger] l.content@[k] {
            Element::ListItem(i) => forall|j: int|
                0 <= j < i.content@.len() ==> !((#[trigger] i.content@[j]) is InternalReference),
            _ => true,
        }
}

/// The chapters of a chapter list with children `c`, one per list item.
pub open spec fn chapters_in(c: Seq<Element>) -> Result<Seq<ChapterV>, ErrorV> {
    gather(
        c,
        |e: Element|
            match e {
                Element::ListItem(i) => Some(chapter_spec(i)),
                _ => None,
            },
    )
}

/// The part that a heading describes. When its first list is free of
/// references it declares the markers and the next list the chapters;
/// otherwise the part has no markers and its first list declares the chapters.
pub open spec fn part_spec(h: Heading) -> Result<PartV, ErrorV> {
    let c = h.content@;
    let marked = match first_list(c) {
        Some(l) => references_free(l),
        None => false,
    };
    let markers = if marked {
        markers_in(first_list(c)->0.content@, first_list(c)->0.line)
    } else {
        Ok(empty_markers())
    };
    let chapter_list = if marked {
        first_list(after_first_list(c))
    } else {
        first_list(c)
    };
    match markers {
        Err(e) => Err(e),
        Ok(m) => match (match chapter_list {
            Some(l) => chapters_in(l.content@),
            None => Ok(Seq::empty()),
        }) {
            Err(e) => Err(e),
            Ok(cs) => Ok(PartV { title: trimmed(h.caption@), markers: m, chapters: cs }),
        },
    }
}

/// The parts of a book heading with children `c`, one per nested heading.
pub open spec fn parts_in(c: Seq<Element>) -> Result<Seq<PartV>, ErrorV> {
    gather(
        c,
        |e: Element|
            match e {
                Element::Heading(h) => Some(part_spec(h)),
                _ => None,
            },
    )
}

/// The book that a document describes, before normalization: its title and
/// markers from its first heading of depth one, its parts from the headings
/// nested in that one.
pub open spec fn book_spec(root: Element) -> Result<BookV, ErrorV> {
    match root {
        Element::Document(d) => match first_book_heading(d.content@) {
            None => Err(ErrorV::NoBookHeading { line: d.line as nat }),
            Some(h) => match parts_in(h.content@) {
                Err(e) => Err(e),
                Ok(ps) => match markers_under(h.content@) {
                    Err(e) => Err(e),
                    Ok(m) => Ok(BookV { title: trimmed(h.caption@), markers: m, parts: ps }),
                },
            },
        },
        _ => Err(ErrorV::NotADocument { line: root.spec_line() as nat }),
    }
}

/// Reads the markers of a node with children `c`.
fn markers_below(c: &Vec<Element>) -> (r: Result<Markers, SitemapError>)
    ensures
        result_view(r) == markers_under(c@),
{
    match find_first_list(c) {
        Some(l) => marker_list(l),
        None => Ok(Markers::default()),
    }
}

/// Reads a chapter from an item of a chapter list.
pub fn chapter(item: &ListItem) -> (r: Result<Chapter, SitemapError>)
    ensures
        result_view(r) == chapter_spec(*item),
{
    let article_ref = match find_reference(&item.content) {
        Some(x) => x,
        None => {
            return Err(SitemapError::MissingReference { line: item.line });
        },
    };
    let markers = match markers_below(&item.content) {
        Ok(m) => m,
        Err(e) => {
            return Err(e);
        },
    };
    let revision = String::from_str("latest");
    proof {
        reveal_strlit("latest");
    }
    assert(revision@ =~= latest());
    Ok(
        Chapter {
            title: trim(article_ref.caption.as_str()),
            path: trim(article_ref.target.as_str()),
            markers,
            revision,
        },
    )
}

/// Whether no item of the list holds a reference to an article.
fn is_references_free(list: &List) -> (r: bool)
    ensures
        r == references_free(*list),
{
    let c = &list.content;
    let mut k: usize = 0;
    while k < c.len()
        invariant
            k <= c.len(),
            c == &list.content,
            forall|x: int|
                0 <= x < k ==> match #[trigger] c@[x] {
                    Element::ListItem(i) => forall|j: int|
                        0 <= j < i.content@.len() ==> !((#[trigger] i.content@[j]) is InternalReference),
                    _ => true,
                },
        decreases c.len() - k,
    {
        match &c[k] {
            Element::ListItem(item) => {
                assert(c@[k as int] == Element::ListItem(*item));
                let mut j: usize = 0;
                while j < item.content.len()
                    invariant
                        k < c.len(),
                        c == &list.content,
                        c@[k as int] == Element::ListItem(*item),
                        j <= item.content.len(),
                        forall|y: int|
                            0 <= y < j ==> !((#[trigger] item.content@[y]) is InternalReference),
                    decreases item.content.len() - j,
                {
                    match &item.content[j] {
                        Element::InternalReference(_) => {
                            assert(item.content@[j as int] is InternalReference);
                            assert(list.content@[k as int] == Element::ListItem(*item));
                            assert(!references_free(*list)) by {
                                if references_free(*list) {
                                    assert(match list.content@[k as int] {
                                        Element::ListItem(i) => forall|y: int|
                                            0 <= y < i.content@.len() ==> !((#[trigger] i.content@[y]) is InternalReference),
                                        _ => true,
                                    });
                                    assert(!(item.content@[j as int] is InternalReference));
                                }
                            }
                            return false;
                        },
                        _ => {},
                    }
                    j = j + 1;
                }
            },
            _ => {},
        }
        k = k + 1;
    }
    true
}

/// Reads the chapters of a chapter list, one per list item.
fn chapter_items(list: &List) -> (r: Result<Vec<Chapter>, SitemapError>)
    ensures
        match r {
            Ok(v) => chapters_in(list.content@) == Ok::<Seq<ChapterV>, ErrorV>(chapters_view(v@)),
            Err(e) => chapters_in(list.content@) == Err::<Seq<ChapterV>, ErrorV>(e@),
        },
{
    let ghost f = |e: Element|
        match e {
            Element::ListItem(i) => Some(chapter_spec(i)),
            _ => None,
        };
    let c = &list.content;
    let mut r: Vec<Chapter> = Vec::new();
    let mut i: usize = 0;
    assert(chapters_view(r@) =~= Seq::<ChapterV>::empty());
    assert(c@.subrange(0, 0) =~= Seq::<Element>::empty());
    while i < c.len()
        invariant
            i <= c.len(),
            c == &list.content,
            f == (|e: Element|
                match e {
                    Element::ListItem(i) => Some(chapter_spec(i)),
                    _ => None,
                }),
            gather(c@.subrange(0, i as int), f) == Ok::<Seq<ChapterV>, ErrorV>(chapters_view(r@)),
        decreases c.len() - i,
    {
        proof {
            lemma_gather_step(c@, f, i as int);
        }
        match &c[i] {
            Element::ListItem(item) => {
                match chapter(item) {
                    Ok(ch) => {
                        let ghost before = chapters_view(r@);
                        r.push(ch);
                        assert(chapters_view(r@) =~= before.push(ch@));
                    },
                    Err(e) => {
                        proof {
                            lemma_gather_failure(c@, f, i + 1, e@);
                        }
                        return Err(e);
                    },
                }
            },
            _ => {},
        }
        i = i + 1;
    }
    assert(c@.subrange(0, i as int) =~= c@);
    Ok(r)
}

/// Reads a part from a heading: title from the caption, then markers and
/// chapters from the lists of the heading.
pub fn part(heading: &Heading) -> (r: Result<Part, SitemapError>)
    ensures
        result_view(r) == part_spec(*heading),
{
    let c = &heading.content;
    assert(c@.subrange(0, c.len() as int) =~= c@);
    let first = find_list(c, 0);
    let first_is_marker = match first {
        Some((_, l)) => is_references_free(l),
        None => false,
    };
    let markers = if first_is_marker {
        match first {
            Some((_, l)) => match marker_list(l) {
                Ok(m) => m,
                Err(e) => {
                    return Err(e);
                },
            },
            None => Markers::default(),
        }
    } else {
        Markers::default()
    };
    let chapter_list = if first_is_marker {
        match first {
            Some((k, _)) => {
                let second = find_list(c, k + 1);
                match second {
                    Some((_, l)) => Some(l),
                    None => None,
                }
            },
            None => None,
        }
    } else {
        match first {
            Some((_, l)) => Some(l),
            None => None,
        }
    };
    let chapters = match chapter_list {
        Some(l) => match chapter_items(l) {
            Ok(v) => v,
            Err(e) => {
                return Err(e);
            },
        },
        None => {
            let v: Vec<Chapter> = Vec::new();
            assert(chapters_view(v@) =~= Seq::<ChapterV>::empty());
            v
        },
    };
    Ok(Part { title: trim(heading.caption.as_str()), markers, chapters })
}

/// Reads the parts of a book heading, one per nested heading.
fn part_headings(c: &Vec<Element>) -> (r: Result<Vec<Part>, SitemapError>)
    ensures
        match r {
            Ok(v) => parts_in(c@) == Ok::<Seq<PartV>, ErrorV>(parts_view(v@)),
            Err(e) => parts_in(c@) == Err::<Seq<PartV>, ErrorV>(e@),
        },
{
    let ghost f = |e: Element|
        match e {
            Element::Heading(h) => Some(part_spec(h)),
            _ => None,
        };
    let mut r: Vec<Part> = Vec::new();
    let mut i: usize = 0;
    assert(parts_view(r@) =~= Seq::<PartV>::empty());
    assert(c@.subrange(0, 0) =~= Seq::<Element>::empty());
    while i < c.len()
        invariant
            i <= c.len(),
            f == (|e: Element|
                match e {
                    Element::Heading(h) => Some(part_spec(h)),
                    _ => None,
                }),
            gather(c@.subrange(0, i as int), f) == Ok::<Seq<PartV>, ErrorV>(parts_view(r@)),
        decreases c.len() - i,
    {
        proof {
            lemma_gather_step(c@, f, i as int);
        }
        match &c[i] {
            Element::Heading(h) => {
                match part(h) {
                    Ok(p) => {
                        let ghost before = parts_view(r@);
                        r.push(p);
                        assert(parts_view(r@) =~= before.push(p@));
                    },
                    Err(e) => {
                        proof {
                            lemma_gather_failure(c@, f, i + 1, e@);
                        }
                        return Err(e);
                    },
                }
            },
            _ => {},
        }
        i = i + 1;
    }
    assert(c@.subrange(0, i as int) =~= c@);
    Ok(r)
}

/// Reads the book that a document describes and normalizes it. Extraction and
/// normalization failures are reported alike.
pub fn book(root: &Element) -> (r: Result<Book, SitemapError>)
    ensures
        result_view(r) == (match book_spec(*root) {
            Err(e) => Err(e),
            Ok(b) => book_normalized(b),
        }),
{
    let doc = match root {
        Element::Document(d) => d,
        _ => {
            return Err(SitemapError::NotADocument { line: root.line() });
        },
    };
    let heading = match find_book_heading(&doc.content) {
        Some(h) => h,
        None => {
            return Err(SitemapError::NoBookHeading { line: doc.line });
        },
    };
    let title = trim(heading.caption.as_str());
    let parts = match part_headings(&heading.content) {
        Ok(v) => v,
        Err(e) => {
            return Err(e);
        },
    };
    let markers = match markers_below(&heading.content) {
        Ok(m) => m,
        Err(e) => {
            return Err(e);
        },
    };
    let mut book = Book { title, markers, parts };
    match book.normalize() {
        Ok(()) => Ok(book),
        Err(e) => Err(e),
    }
}

} // verus!
