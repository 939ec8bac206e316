use mfnf_sitemap::{
    book, chapter, marker_list, parse_sitemap, part, subtarget_list, Document, Element, Heading,
    InternalReference, List, ListItem, Other, SitemapError,
};

fn item(text: &str, content: Vec<Element>) -> Element {
    Element::ListItem(ListItem { line: 7, text: text.to_string(), content })
}

fn list(content: Vec<Element>) -> Element {
    Element::List(List { line: 5, content })
}

fn reference(target: &str, caption: &str) -> Element {
    Element::InternalReference(InternalReference {
        line: 9,
        target: target.to_string(),
        caption: caption.to_string(),
    })
}

fn heading(depth: usize, caption: &str, content: Vec<Element>) -> Element {
    Element::Heading(Heading { line: 3, depth, caption: caption.to_string(), content })
}

fn document(content: Vec<Element>) -> Element {
    Element::Document(Document { line: 1, content })
}

fn chapter_item(title: &str, path: &str, markers: Vec<Element>) -> Element {
    let mut content = vec![reference(path, title)];
    if !markers.is_empty() {
        content.push(list(markers));
    }
    item(title, content)
}

fn as_list(e: Element) -> List {
    match e {
        Element::List(l) => l,
        _ => panic!("not a list"),
    }
}

fn as_item(e: Element) -> ListItem {
    match e {
        Element::ListItem(i) => i,
        _ => panic!("not a list item"),
    }
}

fn as_heading(e: Element) -> Heading {
    match e {
        Element::Heading(h) => h,
        _ => panic!("not a heading"),
    }
}

fn names(v: &[mfnf_sitemap::Subtarget]) -> Vec<String> {
    v.iter().map(|s| s.name.clone()).collect()
}

#[test]
fn subtarget_list_folds_trims_and_reads_parameters() {
    let l = as_list(list(vec![
        item("  Print: ", vec![list(vec![item(" first ", vec![]), item("second", vec![])])]),
        item("HTML", vec![]),
        item("print", vec![]),
    ]));
    let r = subtarget_list(&l).unwrap();
    assert_eq!(names(&r), vec!["print", "html"]);
    assert_eq!(r[0].parameters, vec!["first".to_string(), "second".to_string()]);
    assert!(r[1].parameters.is_empty());
}

#[test]
fn subtarget_list_rejects_non_items() {
    let l = as_list(list(vec![item("all", vec![]), Element::Other(Other { line: 4 })]));
    match subtarget_list(&l) {
        Err(SitemapError::NotAListItem { line }) => assert_eq!(line, 5),
        other => panic!("unexpected: {:?}", other),
    }
}

#[test]
fn marker_list_reads_every_marker() {
    let l = as_list(list(vec![
        item("Include:", vec![list(vec![item("all", vec![])])]),
        item("exclude:", vec![list(vec![item("print", vec![list(vec![item("first", vec![])])])])]),
        item("todo: fix this: soon ", vec![]),
        item(" After : Some/Path", vec![]),
    ]));
    let m = marker_list(&l).unwrap();
    assert_eq!(names(&m.includes.subtargets), vec!["all"]);
    assert_eq!(names(&m.exclude.subtargets), vec!["print"]);
    assert_eq!(m.exclude.subtargets[0].parameters, vec!["first".to_string()]);
    assert_eq!(m.todo.unwrap().message, "fix this: soon");
    assert_eq!(m.after.unwrap().path, "Some/Path");
    assert!(m.alias.mapping.is_empty());
}

#[test]
fn marker_list_without_nested_list_keeps_nothing() {
    let l = as_list(list(vec![item("include: all", vec![])]));
    let m = marker_list(&l).unwrap();
    assert!(m.includes.subtargets.is_empty());
}

#[test]
fn marker_list_unknown_marker() {
    let l = as_list(list(vec![item("weird: foo", vec![])]));
    match marker_list(&l) {
        Err(SitemapError::UnknownMarker { line, id }) => {
            assert_eq!(line, 7);
            assert_eq!(id, "weird");
        }
        other => panic!("unexpected: {:?}", other),
    }
}

#[test]
fn marker_list_empty_marker() {
    let l = as_list(list(vec![item("  : foo", vec![])]));
    match marker_list(&l) {
        Err(SitemapError::EmptyMarker { line }) => assert_eq!(line, 7),
        other => panic!("unexpected: {:?}", other),
    }
}

#[test]
fn marker_list_rejects_non_items() {
    let l = as_list(list(vec![Element::Other(Other { line: 6 })]));
    assert!(matches!(marker_list(&l), Err(SitemapError::NotAListItem { line: 5 })));
}

#[test]
fn chapter_reads_reference_and_markers() {
    let i = as_item(chapter_item(
        " Chapter One ",
        " Mathe/Chapter_One ",
        vec![item("todo: check", vec![])],
    ));
    let c = chapter(&i).unwrap();
    assert_eq!(c.title, "Chapter One");
    assert_eq!(c.path, "Mathe/Chapter_One");
    assert_eq!(c.revision, "latest");
    assert_eq!(c.markers.todo.unwrap().message, "check");
}

#[test]
fn chapter_needs_a_reference() {
    let i = as_item(item("no link here", vec![]));
    assert!(matches!(chapter(&i), Err(SitemapError::MissingReference { line: 7 })));
}

#[test]
fn part_with_marker_list_then_chapter_list() {
    let h = as_heading(heading(
        2,
        " Part A ",
        vec![
            list(vec![item("include:", vec![list(vec![item("print", vec![])])])]),
            list(vec![chapter_item("One", "one", vec![]), chapter_item("Two", "two", vec![])]),
        ],
    ));
    let p = part(&h).unwrap();
    assert_eq!(p.title, "Part A");
    assert_eq!(names(&p.markers.includes.subtargets), vec!["print"]);
    assert_eq!(p.chapters.len(), 2);
    assert_eq!(p.chapters[1].path, "two");
}

#[test]
fn part_with_only_chapter_list() {
    let h = as_heading(heading(2, "Part B", vec![list(vec![chapter_item("One", "one", vec![])])]));
    let p = part(&h).unwrap();
    assert!(p.markers.includes.subtargets.is_empty());
    assert_eq!(p.chapters.len(), 1);
    assert_eq!(p.chapters[0].title, "One");
}

#[test]
fn part_without_lists() {
    let h = as_heading(heading(2, "Empty", vec![]));
    let p = part(&h).unwrap();
    assert!(p.chapters.is_empty());
}

#[test]
fn book_needs_a_document() {
    let root = heading(1, "Book", vec![]);
    assert!(matches!(book(&root), Err(SitemapError::NotADocument { line: 3 })));
}

#[test]
fn book_needs_a_heading_of_depth_one() {
    let root = document(vec![heading(2, "Not a book", vec![])]);
    assert!(matches!(book(&root), Err(SitemapError::NoBookHeading { line: 1 })));
}

#[test]
fn book_without_markers_round_trip() {
    let root = document(vec![
        Element::Other(Other { line: 1 }),
        heading(
            1,
            " My Book ",
            vec![
                heading(2, "Part 1", vec![list(vec![chapter_item("One", "one", vec![])])]),
                heading(2, "Part 2", vec![]),
                heading(2, "Part 3", vec![list(vec![chapter_item("Two", "two", vec![])])]),
            ],
        ),
    ]);
    let b = parse_sitemap(&root).unwrap();
    assert_eq!(b.title, "My Book");
    let titles: Vec<&str> = b.parts.iter().map(|p| p.title.as_str()).collect();
    assert_eq!(titles, vec!["Part 1", "Part 3"]);
    for m in std::iter::once(&b.markers)
        .chain(b.parts.iter().map(|p| &p.markers))
        .chain(b.parts.iter().flat_map(|p| p.chapters.iter().map(|c| &c.markers)))
    {
        assert!(m.includes.subtargets.is_empty());
        assert!(m.exclude.subtargets.is_empty());
        assert!(m.alias.mapping.is_empty());
        assert!(m.todo.is_none());
        assert!(m.after.is_none());
    }
}

#[test]
fn book_level_include_suppressed_by_chapter_exclude() {
    let root = document(vec![heading(
        1,
        "Book",
        vec![
            list(vec![item("include:", vec![list(vec![item("all", vec![])])])]),
            heading(
                2,
                "Part",
                vec![list(vec![chapter_item(
                    "One",
                    "one",
                    vec![item("exclude:", vec![list(vec![item("all", vec![])])])],
                )])],
            ),
        ],
    )]);
    let b = book(&root).unwrap();
    let c = &b.parts[0].chapters[0];
    assert_eq!(names(&c.markers.exclude.subtargets), vec!["all"]);
    assert!(c.markers.includes.subtargets.is_empty());
    assert_eq!(names(&b.parts[0].markers.includes.subtargets), vec!["all"]);
}

#[test]
fn unknown_marker_fails_at_every_level() {
    let weird = || list(vec![item("weird: foo", vec![])]);
    let at_book = document(vec![heading(1, "Book", vec![weird()])]);
    let at_part = document(vec![heading(
        1,
        "Book",
        vec![heading(2, "Part", vec![weird(), list(vec![chapter_item("One", "one", vec![])])])],
    )]);
    let at_chapter = document(vec![heading(
        1,
        "Book",
        vec![heading(
            2,
            "Part",
            vec![list(vec![chapter_item("One", "one", vec![item("weird: foo", vec![])])])],
        )],
    )]);
    for root in [at_book, at_part, at_chapter] {
        match book(&root) {
            Err(SitemapError::UnknownMarker { id, .. }) => assert_eq!(id, "weird"),
            other => panic!("unexpected: {:?}", other),
        }
    }
}

#[test]
fn book_level_parameters_are_rejected() {
    let root = document(vec![heading(
        1,
        "Book",
        vec![list(vec![item(
            "include:",
            vec![list(vec![item("all", vec![list(vec![item("param", vec![])])])])],
        )])],
    )]);
    assert!(matches!(book(&root), Err(SitemapError::IncludeParameters {})));
}

#[test]
fn chapter_level_parameters_are_kept() {
    let root = document(vec![heading(
        1,
        "Book",
        vec![heading(
            2,
            "Part",
            vec![list(vec![chapter_item(
                "One",
                "one",
                vec![item(
                    "exclude:",
                    vec![list(vec![item("print", vec![list(vec![item("Sec 1", vec![])])])])],
                )],
            )])],
        )],
    )]);
    let b = book(&root).unwrap();
    let c = &b.parts[0].chapters[0];
    assert_eq!(c.markers.exclude.subtargets[0].parameters, vec!["Sec 1".to_string()]);
}

#[test]
fn conflicting_markers_fail_extraction() {
    let root = document(vec![heading(
        1,
        "Book",
        vec![list(vec![
            item("include:", vec![list(vec![item("print", vec![])])]),
            item("exclude:", vec![list(vec![item("Print", vec![])])]),
        ])],
    )]);
    match book(&root) {
        Err(SitemapError::Conflict { name }) => assert_eq!(name, "print"),
        other => panic!("unexpected: {:?}", other),
    }
}

#[test]
fn unicode_white_space_is_trimmed() {
    let l = as_list(list(vec![item("\u{a0}\u{3000}Print\u{2009}\n", vec![]), item("\u{200b}html", vec![])]));
    let r = subtarget_list(&l).unwrap();
    assert_eq!(names(&r), vec!["print".to_string(), "\u{200b}html".to_string()]);
}
