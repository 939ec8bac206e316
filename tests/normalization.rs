use mfnf_sitemap::{
    child_overrides, deny_parameters, expand_aliases, propagate, prune, AliasMarker, Book,
    Chapter, ExcludeMarker, IncludeMarker, Markers, Normalize, Part, SitemapError, Subtarget,
};

fn st(name: &str) -> Subtarget {
    Subtarget { name: name.to_string(), parameters: vec![] }
}

fn st_with(name: &str, params: &[&str]) -> Subtarget {
    Subtarget { name: name.to_string(), parameters: params.iter().map(|p| p.to_string()).collect() }
}

fn markers(inc: Vec<Subtarget>, exc: Vec<Subtarget>, alias: &[(&str, &str)]) -> Markers {
    Markers {
        includes: IncludeMarker { subtargets: inc },
        exclude: ExcludeMarker { subtargets: exc },
        alias: AliasMarker {
            mapping: alias.iter().map(|(a, t)| (a.to_string(), t.to_string())).collect(),
        },
        todo: None,
        after: None,
    }
}

fn chapter_with(path: &str, m: Markers) -> Chapter {
    Chapter { title: path.to_uppercase(), path: path.to_string(), markers: m, revision: "latest".to_string() }
}

fn part_with(title: &str, m: Markers, chapters: Vec<Chapter>) -> Part {
    Part { title: title.to_string(), markers: m, chapters }
}

fn names(v: &[Subtarget]) -> Vec<String> {
    v.iter().map(|s| s.name.clone()).collect()
}

#[test]
fn default_markers_are_empty() {
    let m = Markers::default();
    assert!(m.includes.subtargets.is_empty());
    assert!(m.exclude.subtargets.is_empty());
    assert!(m.alias.mapping.is_empty());
    assert!(m.todo.is_none() && m.after.is_none());
}

#[test]
fn validation_rejects_conflicts() {
    let mut m = markers(vec![st("html"), st("print")], vec![st("print")], &[]);
    match m.normalize() {
        Err(SitemapError::Conflict { name }) => assert_eq!(name, "print"),
        other => panic!("unexpected: {:?}", other),
    }
}

#[test]
fn validation_rejects_colliding_alias() {
    let mut m = markers(vec![st("print"), st("html")], vec![], &[("html", "print")]);
    match m.normalize() {
        Err(SitemapError::AliasCollision { alias }) => assert_eq!(alias, "html"),
        other => panic!("unexpected: {:?}", other),
    }
}

#[test]
fn validation_rejects_dangling_alias() {
    let mut m = markers(vec![st("print")], vec![], &[("web", "html")]);
    match m.normalize() {
        Err(SitemapError::DanglingAlias { alias, target }) => {
            assert_eq!(alias, "web");
            assert_eq!(target, "html");
        }
        other => panic!("unexpected: {:?}", other),
    }
}

#[test]
fn validation_accepts_consistent_markers() {
    let mut m = markers(vec![st("print")], vec![st("html")], &[("paper", "print"), ("web", "html")]);
    assert!(m.normalize().is_ok());
    assert_eq!(names(&m.includes.subtargets), vec!["print"]);
}

#[test]
fn deny_parameters_on_includes_and_excludes() {
    assert!(deny_parameters(&markers(vec![st("a")], vec![st("b")], &[])).is_ok());
    assert!(matches!(
        deny_parameters(&markers(vec![st_with("a", &["x"])], vec![], &[])),
        Err(SitemapError::IncludeParameters {})
    ));
    assert!(matches!(
        deny_parameters(&markers(vec![], vec![st_with("b", &["y"])], &[])),
        Err(SitemapError::ExcludeParameters {})
    ));
}

#[test]
fn child_overrides_by_name_only() {
    let child = markers(vec![st_with("print", &["x"])], vec![st("html")], &[]);
    assert!(child_overrides(&child, &st("print")));
    assert!(child_overrides(&child, &st("html")));
    assert!(!child_overrides(&child, &st("all")));
}

#[test]
fn propagation_respects_child_definitions() {
    let parent = markers(vec![st("all"), st("print")], vec![st("html")], &[("paper", "print")]);
    let mut child = markers(vec![], vec![st("all")], &[("paper", "all")]);
    propagate(&parent, &mut child);
    assert_eq!(names(&child.includes.subtargets), vec!["print"]);
    assert_eq!(names(&child.exclude.subtargets), vec!["all", "html"]);
    assert_eq!(child.alias.mapping, vec![("paper".to_string(), "all".to_string())]);
}

#[test]
fn propagation_twice_is_propagation_once() {
    let parent = markers(vec![st("all"), st("print")], vec![st("html")], &[("web", "html")]);
    let mut once = markers(vec![st_with("print", &["p"])], vec![], &[]);
    propagate(&parent, &mut once);
    let mut twice = once.clone();
    propagate(&parent, &mut twice);
    assert_eq!(names(&once.includes.subtargets), vec!["print", "all"]);
    assert_eq!(names(&twice.includes.subtargets), names(&once.includes.subtargets));
    assert_eq!(twice.includes.subtargets[0].parameters, vec!["p".to_string()]);
    assert_eq!(names(&twice.exclude.subtargets), names(&once.exclude.subtargets));
    assert_eq!(twice.alias.mapping, once.alias.mapping);
}

#[test]
fn alias_expansion_copies_parameters() {
    let mut m = markers(vec![st_with("print", &["a", "b"])], vec![st("html")], &[
        ("paper", "print"),
        ("web", "html"),
        ("none", "missing"),
    ]);
    expand_aliases(&mut m);
    assert_eq!(names(&m.includes.subtargets), vec!["print", "paper"]);
    assert_eq!(m.includes.subtargets[1].parameters, vec!["a".to_string(), "b".to_string()]);
    assert_eq!(names(&m.exclude.subtargets), vec!["html", "web"]);
}

#[test]
fn part_alias_reaches_chapter_include() {
    let chapter = chapter_with("one", markers(vec![st("special")], vec![], &[]));
    let p = part_with("Part", markers(vec![st("special")], vec![], &[("print", "special")]), vec![chapter]);
    let mut b = Book { title: "Book".to_string(), markers: Markers::default(), parts: vec![p] };
    b.normalize().unwrap();
    let c = &b.parts[0].chapters[0];
    assert_eq!(names(&c.markers.includes.subtargets), vec!["special", "print"]);
}

#[test]
fn part_alias_to_undefined_target_is_rejected() {
    let chapter = chapter_with("one", markers(vec![st("special")], vec![], &[]));
    let mut p = part_with("Part", markers(vec![], vec![], &[("print", "special")]), vec![chapter]);
    assert!(matches!(p.normalize(), Err(SitemapError::DanglingAlias { .. })));
}

#[test]
fn chapter_markers_win_over_book_markers() {
    let chapter = chapter_with("one", markers(vec![], vec![st("all")], &[]));
    let p = part_with("Part", Markers::default(), vec![chapter]);
    let mut b = Book { title: "Book".to_string(), markers: markers(vec![st("all")], vec![], &[]), parts: vec![p] };
    b.normalize().unwrap();
    let c = &b.parts[0].chapters[0];
    assert!(c.markers.includes.subtargets.is_empty());
    assert_eq!(names(&c.markers.exclude.subtargets), vec!["all"]);
}

#[test]
fn book_parameters_are_rejected() {
    let mut b = Book {
        title: "Book".to_string(),
        markers: markers(vec![st_with("all", &["x"])], vec![], &[]),
        parts: vec![],
    };
    assert!(matches!(b.normalize(), Err(SitemapError::IncludeParameters {})));
}

#[test]
fn part_parameters_are_rejected() {
    let mut p = part_with("Part", markers(vec![], vec![st_with("print", &["x"])], &[]), vec![]);
    assert!(matches!(p.normalize(), Err(SitemapError::ExcludeParameters {})));
}

#[test]
fn chapter_error_aborts_the_book() {
    let good = chapter_with("one", Markers::default());
    let bad = chapter_with("two", markers(vec![st("a")], vec![st("a")], &[]));
    let p = part_with("Part", Markers::default(), vec![good, bad]);
    let mut b = Book { title: "Book".to_string(), markers: Markers::default(), parts: vec![p] };
    match b.normalize() {
        Err(SitemapError::Conflict { name }) => assert_eq!(name, "a"),
        other => panic!("unexpected: {:?}", other),
    }
}

#[test]
fn pruning_keeps_order_of_parts_with_chapters() {
    let parts = vec![
        part_with("A", Markers::default(), vec![chapter_with("a", Markers::default())]),
        part_with("B", Markers::default(), vec![]),
        part_with("C", Markers::default(), vec![chapter_with("c1", Markers::default()), chapter_with("c2", Markers::default())]),
        part_with("D", Markers::default(), vec![]),
    ];
    let kept = prune(parts);
    let titles: Vec<&str> = kept.iter().map(|p| p.title.as_str()).collect();
    assert_eq!(titles, vec!["A", "C"]);
    assert_eq!(kept[1].chapters[1].path, "c2");
}

#[test]
fn normalize_prunes_chapterless_parts() {
    let parts = vec![
        part_with("Empty", markers(vec![st("print")], vec![], &[]), vec![]),
        part_with("Full", Markers::default(), vec![chapter_with("x", Markers::default())]),
    ];
    let mut b = Book { title: "Book".to_string(), markers: Markers::default(), parts };
    b.normalize().unwrap();
    assert_eq!(b.parts.len(), 1);
    assert_eq!(b.parts[0].title, "Full");
}

#[test]
fn repeated_alias_name_is_rejected() {
    let mut c = chapter_with("one", markers(vec![st("p")], vec![st("hh")], &[("aaa", "p"), ("aaa", "hh")]));
    match c.normalize() {
        Err(SitemapError::AliasCollision { alias }) => assert_eq!(alias, "aaa"),
        other => panic!("unexpected: {:?}", other),
    }
    assert_eq!(names(&c.markers.includes.subtargets), vec!["p"]);
    assert_eq!(names(&c.markers.exclude.subtargets), vec!["hh"]);
}

#[test]
fn repeated_alias_name_fails_the_book() {
    let chapter = chapter_with("one", markers(vec![st("p")], vec![st("hh")], &[("aaa", "p"), ("aaa", "hh")]));
    let p = part_with("Part", Markers::default(), vec![chapter]);
    let mut b = Book { title: "Book".to_string(), markers: Markers::default(), parts: vec![p] };
    assert!(matches!(b.normalize(), Err(SitemapError::AliasCollision { .. })));
    assert!(b.parts.is_empty());
    assert_eq!(b.title, "Book");
}

#[test]
fn failed_validation_leaves_markers_unchanged() {
    let mut m = markers(vec![st_with("print", &["x"]), st("html")], vec![st("html")], &[("web", "html")]);
    assert!(m.normalize().is_err());
    assert_eq!(names(&m.includes.subtargets), vec!["print", "html"]);
    assert_eq!(m.includes.subtargets[0].parameters, vec!["x".to_string()]);
    assert_eq!(names(&m.exclude.subtargets), vec!["html"]);
    assert_eq!(m.alias.mapping.len(), 1);
}

#[test]
fn rejected_part_markers_leave_part_unchanged() {
    let chapter = chapter_with("one", Markers::default());
    let mut p = part_with("Part", markers(vec![st("a")], vec![st("a")], &[]), vec![chapter]);
    assert!(p.normalize().is_err());
    assert_eq!(p.chapters.len(), 1);
    assert_eq!(p.chapters[0].path, "one");
}

#[test]
fn failing_chapter_leaves_part_without_chapters() {
    let bad = chapter_with("two", markers(vec![], vec![], &[("x", "y")]));
    let mut p = part_with("Part", Markers::default(), vec![chapter_with("one", Markers::default()), bad]);
    assert!(matches!(p.normalize(), Err(SitemapError::DanglingAlias { .. })));
    assert!(p.chapters.is_empty());
    assert_eq!(p.title, "Part");
}

#[test]
fn normalizing_a_book_twice_changes_nothing_more() {
    let parts = vec![
        part_with("Empty", Markers::default(), vec![]),
        part_with(
            "Full",
            markers(vec![st("print")], vec![], &[]),
            vec![
                chapter_with("x", markers(vec![], vec![st_with("html", &["s"])], &[])),
                chapter_with("y", Markers::default()),
            ],
        ),
    ];
    let mut b = Book { title: "Book".to_string(), markers: markers(vec![st("all")], vec![st("html")], &[]), parts };
    b.normalize().unwrap();
    let mut again = b.clone();
    again.normalize().unwrap();
    assert_eq!(again.parts.len(), b.parts.len());
    for (p, q) in b.parts.iter().zip(again.parts.iter()) {
        assert_eq!(p.title, q.title);
        assert_eq!(names(&p.markers.includes.subtargets), names(&q.markers.includes.subtargets));
        for (c, d) in p.chapters.iter().zip(q.chapters.iter()) {
            assert_eq!(names(&c.markers.includes.subtargets), names(&d.markers.includes.subtargets));
            assert_eq!(names(&c.markers.exclude.subtargets), names(&d.markers.exclude.subtargets));
        }
    }
    let x = &b.parts[0].chapters[0];
    assert_eq!(names(&x.markers.includes.subtargets), vec!["print", "all"]);
    assert_eq!(names(&x.markers.exclude.subtargets), vec!["html"]);
    assert_eq!(x.markers.exclude.subtargets[0].parameters, vec!["s".to_string()]);
}
