use mfnf_sitemap::{
    find_chapter, namespaced, selects, AfterMarker, AliasMarker, Book, Chapter, ExcludeMarker,
    IncludeMarker, Markers, Part, Subtarget, TodoMarker,
};

fn st(name: &str, params: &[&str]) -> Subtarget {
    Subtarget { name: name.to_string(), parameters: params.iter().map(|p| p.to_string()).collect() }
}

fn markers(inc: Vec<Subtarget>, exc: Vec<Subtarget>) -> Markers {
    Markers {
        includes: IncludeMarker { subtargets: inc },
        exclude: ExcludeMarker { subtargets: exc },
        alias: AliasMarker { mapping: vec![("paper".to_string(), "print".to_string())] },
        todo: Some(TodoMarker { message: "later".to_string() }),
        after: Some(AfterMarker { path: "Appendix".to_string() }),
    }
}

fn chapter(path: &str, m: Markers) -> Chapter {
    Chapter { title: path.to_string(), path: path.to_string(), markers: m, revision: "latest".to_string() }
}

#[test]
fn subtargets_are_equal_by_name() {
    assert_eq!(st("print", &["a"]), st("print", &[]));
    assert_ne!(st("print", &[]), st("html", &[]));
}

#[test]
fn selection_by_include_and_partial_exclude() {
    let c = chapter("x", markers(vec![st("html", &[])], vec![st("print", &["Sec"]), st("all", &[])]));
    assert!(selects(&c, &"html".to_string()));
    assert!(selects(&c, &"print".to_string()));
    assert!(!selects(&c, &"all".to_string()));
    assert!(!selects(&c, &"latex".to_string()));
}

#[test]
fn markers_in_a_target_namespace() {
    let m = markers(vec![st("print", &["p"])], vec![st("html", &[])]);
    let n = namespaced(&m, &"latex".to_string());
    assert_eq!(n.includes.subtargets[0].name, "latex.print");
    assert_eq!(n.includes.subtargets[0].parameters, vec!["p".to_string()]);
    assert_eq!(n.exclude.subtargets[0].name, "latex.html");
    assert_eq!(n.alias.mapping, m.alias.mapping);
    assert_eq!(n.todo.unwrap().message, "later");
    assert_eq!(n.after.unwrap().path, "Appendix");
}

#[test]
fn chapters_are_found_by_folded_path() {
    let b = Book {
        title: "B".to_string(),
        markers: Markers::default(),
        parts: vec![
            Part { title: "Part 1".to_string(), markers: Markers::default(), chapters: vec![chapter("Alpha", Markers::default())] },
            Part {
                title: "Part 2".to_string(),
                markers: Markers::default(),
                chapters: vec![chapter("Beta", Markers::default()), chapter(" beta ", Markers::default())],
            },
        ],
    };
    assert_eq!(find_chapter(&b, &"  BETA".to_string()), Some((1, 0)));
    assert_eq!(find_chapter(&b, &"alpha".to_string()), Some((0, 0)));
    assert_eq!(find_chapter(&b, &"gamma".to_string()), None);
}
