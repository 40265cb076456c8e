use fsview::filesys::{as_filename, count_metadata, FileMetadata, FolderMetadata, FsMetadata};
use fsview::groupid::FolderGroupId;
use fsview::listing::{grand_total, problems_report, write_summary, write_summary_metadata, HierarchySummary};
use fsview::objects::{DuplicateIds, FileMd, FolderMd, Metadata, ProblemMd};
use std::cmp::Ordering;
use std::path::Path;

fn file(id: i64, parent_id: i64, pathname: &str, size: u64) -> Metadata {
    Metadata::File(FileMd {
        id,
        parent_id,
        pathname: pathname.to_string(),
        name: pathname.rsplit('/').next().unwrap().to_string(),
        is_symlink: false,
        size,
        created: 0,
        modified: 0,
    })
}

fn folder(id: i64, parent_id: i64, pathname: &str, size: u64, children: Vec<Metadata>) -> FolderMd {
    FolderMd {
        id,
        parent_id,
        pathname: pathname.to_string(),
        name: pathname.rsplit('/').next().unwrap().to_string(),
        size,
        created: 0,
        modified: 0,
        children,
    }
}

fn problem(id: i64, parent_id: i64, name: &str, description: &str) -> Metadata {
    Metadata::Problem(ProblemMd {
        id,
        parent_id,
        pathname: format!("/p/{name}"),
        name: name.to_string(),
        description: description.to_string(),
    })
}

/// `/r` holds the file `a` and the folder `sub`, which holds the files `b` and `c`.
fn hierarchy() -> Metadata {
    let sub = folder(2, 1, "/r/sub", 100, vec![file(3, 2, "/r/sub/b", 5), file(4, 2, "/r/sub/c", 3)]);
    Metadata::Folder(folder(1, 0, "/r", 100, vec![file(5, 1, "/r/a", 10), Metadata::Folder(sub)]))
}

#[test]
fn summary_lines_and_totals_of_a_hierarchy() {
    let summary = write_summary_metadata(&hierarchy()).unwrap();
    let lines: Vec<(u64, u64, u64, &str)> =
        summary.lines.iter().map(|l| (l.files, l.folders, l.size, l.pathname.as_str())).collect();
    assert_eq!(lines, vec![(1, 1, 110, "/r"), (2, 0, 8, "/r/sub")]);
    assert_eq!((summary.files, summary.folders, summary.size), (3, 1, 118));
}

#[test]
fn summary_of_a_file_is_an_error() {
    let result = write_summary_metadata(&file(9, 0, "/x", 1));
    assert_eq!(result.err().unwrap(), "'/x' is not a folder!!!");
}

#[test]
fn grand_total_adds_the_hierarchies() {
    let first = write_summary_metadata(&hierarchy()).unwrap();
    let second = HierarchySummary { lines: vec![], files: 4, folders: 2, size: 1000 };
    assert_eq!(grand_total(&vec![first, second]), (7, 3, 1118));
    assert_eq!(grand_total(&vec![]), (0, 0, 0));
}

#[test]
fn problems_report_lists_each_folder_and_its_problems() {
    assert_eq!(problems_report(&vec![]), "There are no problems\n");
    let problems = vec![
        Metadata::Folder(folder(1, 0, "/p", 0, vec![problem(2, 1, "x", "denied"), problem(3, 1, "y", "gone")])),
        Metadata::Folder(folder(4, 0, "/q", 0, vec![problem(5, 4, "z", "loop")])),
    ];
    assert_eq!(problems_report(&problems), "\n/p\n    'x' denied\n    'y' gone\n\n/q\n    'z' loop\n");
}

#[test]
fn count_metadata_counts_every_item() {
    let fs = FsMetadata::Folder(FolderMetadata {
        path: "/r".to_string(),
        size: 0,
        created: 0,
        modified: 0,
        children: vec![
            FsMetadata::File(FileMetadata { path: "/r/a".to_string(), is_symlink: false, size: 1, created: 0, modified: 0 }),
            FsMetadata::Folder(FolderMetadata {
                path: "/r/s".to_string(),
                size: 0,
                created: 0,
                modified: 0,
                children: vec![FsMetadata::File(FileMetadata {
                    path: "/r/s/b".to_string(),
                    is_symlink: true,
                    size: 1,
                    created: 0,
                    modified: 0,
                })],
            }),
        ],
    });
    assert_eq!(count_metadata(&fs), 4);
}

#[test]
fn as_filename_agrees_with_path_file_name() {
    for path in ["/a/b", "/a/b/", "b", "/", "", "..", "a/..", "a/.", "./a", "/a//b", "a b/c d", "/x/y.txt"] {
        let expected = Path::new(path).file_name().map(|n| n.to_string_lossy().to_string()).unwrap_or_default();
        assert_eq!(as_filename(path), expected, "{path}");
    }
    assert_eq!(as_filename("/a/b.c"), "b.c");
    assert_eq!(as_filename("/"), "");
}

#[test]
fn folder_group_ids_compare_by_sorted_ids() {
    let a = FolderGroupId::new(vec![3, 1, 2]);
    assert_eq!(a.ids(), &vec![1, 2, 3]);
    let b = FolderGroupId::new(vec![1, 2]);
    assert_eq!(a.compare(&b), Ordering::Greater);
    assert_eq!(b.compare(&a), Ordering::Less);
    assert!(a.same_as(&FolderGroupId::new(vec![2, 3, 1])));
    assert!(!a.same_as(&b));
    assert!(a.same_as(&a.duplicate()));
    let f1 = folder(7, 0, "/f1", 0, vec![]);
    let f2 = folder(5, 0, "/f2", 0, vec![]);
    assert_eq!(FolderGroupId::from_folders(&vec![&f1, &f2]).ids(), &vec![5, 7]);
    let ids = DuplicateIds { filename: "n".to_string(), ids: vec![(9, 90), (4, 40)] };
    assert_eq!(FolderGroupId::from_duplicate_ids(&ids).ids(), &vec![4, 9]);
}

#[test]
fn metadata_kinds_and_default_folder() {
    assert!(problem(1, 0, "x", "d").is_problem());
    assert!(!file(1, 0, "/x", 0).is_problem());
    assert!(file(1, 0, "/x", 0).is_file());
    let default_folder = FolderMd::default();
    assert!(default_folder.is_default());
    assert!(!folder(1, 0, "/r", 0, vec![]).is_default());
    let root = Metadata::Root(folder(1, 0, "/r", 0, vec![]));
    assert!(root.is_root());
    assert!(!root.is_folder());
}

#[test]
fn metadata_text_lists_entries_then_child_folders() {
    let mut link = file(6, 1, "/r/l", 1);
    if let Metadata::File(f) = &mut link {
        f.is_symlink = true;
    }
    let mut top = folder(1, 0, "/r", 0, vec![link]);
    let Metadata::Folder(sub) = hierarchy() else { panic!() };
    let mut sub = sub;
    sub.pathname = "/r/sub".to_string();
    sub.name = "sub".to_string();
    sub.children.truncate(1);
    top.children.push(Metadata::Folder(sub));
    top.children.push(problem(7, 1, "bad", "denied"));
    let text = Metadata::Folder(top).text();
    assert_eq!(
        text,
        "/r\n| SYML l\n| FLDR sub\n| PROB bad\n| /r/sub\n| | FILE a\n"
    );
    assert_eq!(file(9, 0, "/x", 1).text(), "Expected folder got '/x'\n");
}

#[test]
fn write_summary_lists_hierarchies_and_grand_total() {
    let listing = write_summary(&vec![hierarchy(), hierarchy()]);
    assert_eq!(listing.summaries.len(), 2);
    assert_eq!(listing.outcome, Ok(Some((6, 2, 236))));
    let single = write_summary(&vec![hierarchy()]);
    assert_eq!(single.summaries.len(), 1);
    assert_eq!(single.outcome, Ok(None));
    let stopped = write_summary(&vec![hierarchy(), file(9, 0, "/x", 1), hierarchy()]);
    assert_eq!(stopped.summaries.len(), 1);
    assert_eq!(stopped.outcome, Err("'/x' is not a folder!!!".to_string()));
}

#[test]
fn group_folders_with_equal_paths_keep_id_order() {
    let mut folders = fsview::foldersmd::FoldersMd::new();
    folders.add(folder(1, 0, "/x/y", 0, vec![]));
    folders.add(folder(2, 0, "/x//y", 0, vec![]));
    folders.add(folder(3, 0, "/w", 0, vec![]));
    let group = folders.get_group(&FolderGroupId::new(vec![3, 2, 1]));
    let ids: Vec<i64> = group.iter().map(|md| md.id).collect();
    assert_eq!(ids, vec![3, 1, 2]);
}
