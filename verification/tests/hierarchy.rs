use fsview::hierarchy::{dump_metadata, folder_hierarchies, insert_child, sort_children, Builder, Hierarchy};
use fsview::objects::{FileMd, FolderMd, Metadata, ProblemMd};

fn folder(id: i64, parent_id: i64, pathname: &str) -> FolderMd {
    FolderMd {
        id,
        parent_id,
        pathname: pathname.to_string(),
        name: pathname.rsplit('/').next().unwrap().to_string(),
        size: 0,
        created: 0,
        modified: 0,
        children: vec![],
    }
}

fn file(id: i64, parent_id: i64, pathname: &str, is_symlink: bool) -> FileMd {
    FileMd {
        id,
        parent_id,
        pathname: pathname.to_string(),
        name: pathname.rsplit('/').next().unwrap().to_string(),
        is_symlink,
        size: 10,
        created: 0,
        modified: 0,
    }
}

fn names(children: &Vec<Metadata>) -> Vec<String> {
    children.iter().map(|md| md.name().to_string()).collect()
}

fn folder_of(md: &Metadata) -> &FolderMd {
    match md {
        Metadata::Folder(folder_md) | Metadata::Root(folder_md) => folder_md,
        _ => panic!("not a folder"),
    }
}

/// Folders listed parent first: /r, /r/b, /r/b/c, /r/a, then a second root /s.
fn listed_folders() -> Vec<FolderMd> {
    let mut folders =
        vec![folder(1, 0, "/r"), folder(2, 1, "/r/b"), folder(3, 2, "/r/b/c"), folder(4, 1, "/r/a"), folder(5, 0, "/s")];
    folders[0].children.push(Metadata::File(file(10, 1, "/r/z.txt", false)));
    folders[0].children.push(Metadata::File(file(11, 1, "/r/m.txt", false)));
    folders
}

#[test]
fn hierarchy_rebuilds_folders_listed_parent_first() {
    let mut hierarchy = Hierarchy::new();
    for folder_md in listed_folders() {
        hierarchy.add(folder_md);
    }
    let roots = hierarchy.get();
    assert_eq!(roots.len(), 2);
    let r = folder_of(&roots[0]);
    assert_eq!(r.pathname, "/r");
    assert_eq!(names(&r.children), vec!["a", "b", "m.txt", "z.txt"]);
    let b = folder_of(&r.children[1]);
    assert_eq!(b.id, 2);
    assert_eq!(names(&b.children), vec!["c"]);
    assert_eq!(folder_of(&roots[1]).pathname, "/s");
    assert!(folder_of(&roots[1]).children.is_empty());
}

#[test]
fn hierarchy_default_is_empty() {
    let hierarchy = Hierarchy::default();
    assert!(hierarchy.get().is_empty());
}

#[test]
fn folder_hierarchies_keep_every_folder() {
    let roots = folder_hierarchies(listed_folders());
    assert_eq!(roots.len(), 2);
    let lines: Vec<String> = roots.iter().flat_map(|md| dump_metadata(md)).collect();
    assert_eq!(
        lines,
        vec![
            "Folder: /r",
            "Folder: /r/a",
            "Folder: /r/b",
            "Folder: /r/b/c",
            "File: /r/m.txt",
            "File: /r/z.txt",
            "Folder: /s",
        ]
    );
}

#[test]
fn dump_metadata_names_each_kind() {
    let mut root = folder(1, 0, "/top");
    root.children.push(Metadata::File(file(2, 1, "/top/link", true)));
    root.children.push(Metadata::Problem(ProblemMd {
        id: 3,
        parent_id: 1,
        pathname: "/top/bad".to_string(),
        name: "bad".to_string(),
        description: "denied".to_string(),
    }));
    let lines = dump_metadata(&Metadata::Root(root));
    assert_eq!(lines, vec!["Root: /top", "Symlink: /top/link", "Problem: /top/bad"]);
}

#[test]
fn builder_puts_completed_folders_in_name_order() {
    let mut builder = Builder::new();
    builder.add(folder(1, 0, "/r"));
    builder.add(folder(2, 1, "/r/y"));
    builder.add(folder(3, 1, "/r/x"));
    builder.add(folder(4, 1, "/r/z"));
    let roots = builder.get();
    assert_eq!(roots.len(), 1);
    assert_eq!(names(&folder_of(&roots[0]).children), vec!["x", "y", "z"]);
}

#[test]
fn builder_replaces_a_child_of_the_same_name() {
    let mut builder = Builder::new();
    builder.add(folder(1, 0, "/r"));
    builder.add(folder(2, 1, "/r/x"));
    builder.add(folder(3, 1, "/r/x"));
    let roots = builder.get();
    let r = folder_of(&roots[0]);
    assert_eq!(names(&r.children), vec!["x"]);
    assert_eq!(r.children[0].id(), 3);
}

#[test]
fn insert_child_keeps_names_ordered() {
    let mut r = folder(1, 0, "/r");
    for (id, name) in [(2, "/r/m"), (3, "/r/c"), (4, "/r/x"), (5, "/r/a")] {
        insert_child(&mut r, Metadata::File(file(id, 1, name, false)));
    }
    assert_eq!(names(&r.children), vec!["a", "c", "m", "x"]);
    insert_child(&mut r, Metadata::File(file(6, 1, "/r/c", false)));
    assert_eq!(names(&r.children), vec!["a", "c", "m", "x"]);
    assert_eq!(r.children[1].id(), 6);
    assert_eq!(r.id, 1);
    assert_eq!(r.pathname, "/r");
}

#[test]
fn sort_children_orders_by_name() {
    let mut children = vec![
        Metadata::File(file(1, 0, "/b", false)),
        Metadata::File(file(2, 0, "/a", false)),
        Metadata::File(file(3, 0, "/B", false)),
    ];
    sort_children(&mut children);
    assert_eq!(names(&children), vec!["B", "a", "b"]);
}

#[test]
fn builder_nests_a_child_under_its_parent() {
    let mut builder = Builder::new();
    builder.add(folder(1, 0, "A"));
    builder.add(folder(2, 1, "B"));
    builder.add(folder(3, 0, "C"));
    let roots = builder.get();
    assert_eq!(roots.len(), 2);
    let a = folder_of(&roots[0]);
    assert_eq!(a.id, 1);
    assert_eq!(a.children.len(), 1);
    assert_eq!(folder_of(&a.children[0]).id, 2);
    let c = folder_of(&roots[1]);
    assert_eq!(c.id, 3);
    assert!(c.children.is_empty());
}

#[test]
fn hierarchy_sorts_children_with_the_nested_folder() {
    let mut hierarchy = Hierarchy::default();
    let mut p = folder(1, 0, "p");
    p.children.push(Metadata::File(file(10, 1, "z", false)));
    p.children.push(Metadata::File(file(11, 1, "a", false)));
    hierarchy.add(p);
    hierarchy.add(folder(2, 1, "m"));
    let roots = hierarchy.get();
    assert_eq!(roots.len(), 1);
    let p = folder_of(&roots[0]);
    assert_eq!(p.id, 1);
    assert_eq!(names(&p.children), vec!["a", "m", "z"]);
    assert_eq!(folder_of(&p.children[1]).id, 2);
}

#[test]
fn sort_children_keeps_same_names_in_order() {
    let mut children = vec![
        Metadata::File(file(1, 0, "/b", false)),
        Metadata::File(file(2, 0, "/a", false)),
        Metadata::File(file(3, 0, "/b", true)),
        Metadata::File(file(4, 0, "/a", true)),
    ];
    sort_children(&mut children);
    let ids: Vec<i64> = children.iter().map(|md| md.id()).collect();
    assert_eq!(ids, vec![2, 4, 1, 3]);
}
