use fsview::filesys::sort_by_path;
use fsview::filesys::{FileMetadata, FolderMetadata, FsMetadata, ProblemMetadata};
use fsview::load::{empty_folder_file, insert_counts, insert_plan, InsertCount, InsertKind, ROOT_FOLDER_PARENT_ID};
use fsview::objects::{FileMd, FolderMd, Metadata, ProblemMd};
use fsview::rows::{lists_file, problem_folder, problem_of, DuplicateIdRows, FolderRows, ProblemRows};

fn file(path: &str, size: u64) -> FsMetadata {
    FsMetadata::File(FileMetadata { path: path.to_string(), is_symlink: false, size, created: 1, modified: 2 })
}

fn folder(path: &str, children: Vec<FsMetadata>) -> FsMetadata {
    FsMetadata::Folder(FolderMetadata { path: path.to_string(), size: 4096, created: 3, modified: 4, children })
}

fn problem(path: &str, description: &str) -> FsMetadata {
    FsMetadata::Problem(ProblemMetadata { path: path.to_string(), description: description.to_string() })
}

#[test]
fn empty_folder_file_pathnames() {
    let md = empty_folder_file("/a/b");
    assert_eq!(md.path, "/a/b/<?>");
    assert!(!md.is_symlink);
    assert_eq!((md.size, md.created, md.modified), (0, 0, 0));
    assert_eq!(empty_folder_file("/a/").path, "/a/<?>");
    assert_eq!(empty_folder_file("").path, "<?>");
    assert_eq!(md.filename(), "<?>");
}

#[test]
fn insert_plan_order_and_parents() {
    let fs = folder(
        "/root",
        vec![file("/root/f1", 10), folder("/root/sub", vec![]), problem("/root/bad", "denied")],
    );
    let plan = insert_plan(&fs);
    let kinds: Vec<InsertKind> = plan.iter().map(|row| row.kind).collect();
    assert_eq!(
        kinds,
        vec![InsertKind::Folder, InsertKind::File, InsertKind::Folder, InsertKind::EmptyFolderFile, InsertKind::Problem]
    );
    let parents: Vec<Option<usize>> = plan.iter().map(|row| row.parent).collect();
    assert_eq!(parents, vec![None, Some(0), Some(0), Some(2), Some(0)]);
    assert_eq!(plan[0].pathname, "/root");
    assert_eq!(plan[0].name, "root");
    assert_eq!(plan[0].size, 4096);
    assert_eq!(plan[1].name, "f1");
    assert_eq!(plan[1].size, 10);
    assert_eq!(plan[3].pathname, "/root/sub/<?>");
    assert_eq!(plan[3].name, "<?>");
    assert_eq!(plan[4].description, "denied");
    assert_eq!(ROOT_FOLDER_PARENT_ID, 0);
    let counts = insert_counts(&plan);
    assert_eq!((counts.folders, counts.files, counts.problems, counts.empty_files), (2, 1, 1, 1));
    assert_eq!(
        counts.text(),
        "Insert Counts\n  folders: 2\n  files: 1\n  problems: 1\n  entries: 4\n  empty files: 1\n  Total: 5"
    );
}

#[test]
fn insert_plan_of_a_file_and_a_problem() {
    let plan = insert_plan(&file("/x/y.txt", 5));
    assert_eq!(plan.len(), 1);
    assert_eq!(plan[0].kind, InsertKind::File);
    assert_eq!(plan[0].parent, None);
    let plan = insert_plan(&problem("/x/z", "broken"));
    assert_eq!(plan.len(), 1);
    assert_eq!(plan[0].kind, InsertKind::Problem);
    let counts = InsertCount::default();
    assert_eq!(counts.text(), "Insert Counts\n  folders: 0\n  files: 0\n  problems: 0\n  entries: 0\n  empty files: 0\n  Total: 0");
}

#[test]
fn nested_empty_folders_each_get_a_placeholder() {
    let fs = folder("/r", vec![folder("/r/a", vec![folder("/r/a/b", vec![])]), file("/r/c", 1)]);
    let plan = insert_plan(&fs);
    let summary: Vec<(InsertKind, Option<usize>, String)> =
        plan.iter().map(|row| (row.kind, row.parent, row.pathname.clone())).collect();
    assert_eq!(
        summary,
        vec![
            (InsertKind::Folder, None, "/r".to_string()),
            (InsertKind::Folder, Some(0), "/r/a".to_string()),
            (InsertKind::Folder, Some(1), "/r/a/b".to_string()),
            (InsertKind::EmptyFolderFile, Some(2), "/r/a/b/<?>".to_string()),
            (InsertKind::EmptyFolderFile, Some(1), "/r/a/<?>".to_string()),
            (InsertKind::File, Some(0), "/r/c".to_string()),
        ]
    );
    let counts = insert_counts(&plan);
    assert_eq!((counts.folders, counts.files, counts.problems, counts.empty_files), (3, 1, 0, 2));
}

fn folder_md(id: i64, name: &str) -> FolderMd {
    FolderMd {
        id,
        parent_id: 1,
        pathname: format!("/top/{name}"),
        name: name.to_string(),
        size: 10,
        created: 0,
        modified: 0,
        children: vec![],
    }
}

fn file_md(id: i64, parent_id: i64, name: &str) -> FileMd {
    FileMd {
        id,
        parent_id,
        pathname: format!("/top/{name}"),
        name: name.to_string(),
        is_symlink: false,
        size: 3,
        created: 0,
        modified: 0,
    }
}

#[test]
fn folder_rows_gather_files_of_consecutive_rows() {
    assert!(lists_file(7, 2, "a.txt"));
    assert!(!lists_file(-1, 2, "a.txt"));
    assert!(!lists_file(7, -1, "a.txt"));
    assert!(!lists_file(7, 2, "<?>"));
    let mut rows = FolderRows::new();
    assert!(rows.starts_folder(2));
    assert!(rows.start_folder(folder_md(2, "a"), Some(file_md(10, 2, "x"))).is_none());
    assert!(!rows.starts_folder(2));
    rows.add_file(file_md(11, 2, "y"));
    rows.add_file(file_md(12, 2, "x"));
    assert!(rows.starts_folder(3));
    let done = rows.start_folder(folder_md(3, "b"), None).unwrap();
    assert_eq!(done.id, 2);
    let names: Vec<&str> = done.children.iter().map(|md| md.name()).collect();
    assert_eq!(names, vec!["x", "y"]);
    assert_eq!(done.children[0].id(), 12);
    let last = rows.finish().unwrap();
    assert_eq!(last.id, 3);
    assert!(last.children.is_empty());
}

#[test]
fn problem_rows_gather_problems_by_folder() {
    let p1 = problem_of(21, 2, "/top/a/p1".to_string(), "denied".to_string());
    assert_eq!(p1.name, "p1");
    let mut rows = ProblemRows::new();
    assert!(rows.starts_folder(2));
    rows.start_folder(problem_folder(2, 1, "/top/a".to_string(), p1));
    assert!(!rows.starts_folder(2));
    rows.add_problem(problem_of(22, 2, "/top/a/p2".to_string(), "missing".to_string()));
    let q = problem_of(31, 3, "/top/b/q".to_string(), "loop".to_string());
    rows.start_folder(problem_folder(3, 1, "/top/b".to_string(), q));
    let folders = rows.finish();
    assert_eq!(folders.len(), 2);
    match &folders[0] {
        Metadata::Folder(folder) => {
            assert_eq!(folder.id, 2);
            assert_eq!(folder.name, "");
            assert_eq!(folder.children.len(), 2);
            if let Metadata::Problem(ProblemMd { description, .. }) = &folder.children[1] {
                assert_eq!(description, "missing");
            } else {
                panic!("expected a problem");
            }
        },
        _ => panic!("expected a folder"),
    }
    assert!(ProblemRows::new().finish().is_empty());
}

#[test]
fn duplicate_id_rows_gather_by_filename() {
    let mut rows = DuplicateIdRows::new();
    assert!(rows.add_row("a.txt".to_string(), 1, 10).is_none());
    assert!(rows.add_row("a.txt".to_string(), 2, 20).is_none());
    let done = rows.add_row("b.txt".to_string(), 1, 11).unwrap();
    assert_eq!(done.filename, "a.txt");
    assert_eq!(done.ids, vec![(1, 10), (2, 20)]);
    let last = rows.finish().unwrap();
    assert_eq!(last.filename, "b.txt");
    assert_eq!(last.ids, vec![(1, 11)]);
    assert!(DuplicateIdRows::new().finish().is_none());
}

#[test]
fn contents_sort_by_path_components() {
    let mut children = vec![
        file("/a/b.c", 1),
        file("/a/b/c", 2),
        folder("/a/b", vec![]),
        problem("/a/B", "odd"),
        file("/a/a", 3),
    ];
    sort_by_path(&mut children);
    let paths: Vec<String> = children.iter().map(|md| md.path().to_string()).collect();
    assert_eq!(paths, vec!["/a/B", "/a/a", "/a/b", "/a/b/c", "/a/b.c"]);
    let mut expected = paths.clone();
    expected.sort_by(|lhs, rhs| std::path::Path::new(lhs).cmp(std::path::Path::new(rhs)));
    assert_eq!(paths, expected);
}

#[test]
fn metadata_text_names_kind_and_path() {
    assert_eq!(file("/x/y", 1).text(), "File(/x/y)");
    assert_eq!(folder("/x", vec![]).text(), "Folder(/x)");
    assert_eq!(problem("/x/z", "no").text(), "Problem(/x/z)");
}

#[test]
fn insert_counts_add_up() {
    let mut total = InsertCount { folders: 1, files: 2, problems: 3, empty_files: 4 };
    total.add_assign(InsertCount { folders: 10, files: 20, problems: 30, empty_files: 40 });
    assert_eq!((total.folders, total.files, total.problems, total.empty_files), (11, 22, 33, 44));
    total.add_assign(InsertCount::default());
    assert_eq!((total.folders, total.files, total.problems, total.empty_files), (11, 22, 33, 44));
}
