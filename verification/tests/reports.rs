use fsview::matching::{folders_md_size, holds_named};
use fsview::folder_reports::{
    folder_has_children, folders_details, folders_information, folders_summary, problems_rows, DetailRow, EntryKind,
    InformationRow, ProblemRow, details_fit, summary_fits,
};
use fsview::groupid::FolderGroupId;
use fsview::listing::db_information_text;
use fsview::matching::{files_size, FoldersMatchMd};
use fsview::objects::{DbInformation, FileMd, FolderMd, Metadata, ProblemMd};

fn file(name: &str, size: u64, modified: u64, is_symlink: bool) -> Metadata {
    Metadata::File(FileMd {
        id: 0,
        parent_id: 0,
        pathname: format!("/x/{name}"),
        name: name.to_string(),
        is_symlink,
        size,
        created: 0,
        modified,
    })
}

fn folder_md(pathname: &str, size: u64, children: Vec<Metadata>) -> FolderMd {
    FolderMd {
        id: 0,
        parent_id: 0,
        pathname: pathname.to_string(),
        name: pathname.rsplit('/').next().unwrap().to_string(),
        size,
        created: 0,
        modified: 7,
        children,
    }
}

fn folder(pathname: &str, size: u64, children: Vec<Metadata>) -> Metadata {
    Metadata::Folder(folder_md(pathname, size, children))
}

fn hierarchy() -> Metadata {
    folder(
        "/top",
        100,
        vec![
            file("a", 10, 1, false),
            folder("/top/sub", 50, vec![file("b", 5, 2, true), file("c", 6, 3, false)]),
            folder("/top/empty", 20, vec![]),
        ],
    )
}

#[test]
fn information_lists_entries_then_folders_with_children() {
    assert!(folder_has_children(&hierarchy()));
    assert!(!folder_has_children(&folder("/e", 0, vec![])));
    assert!(!folder_has_children(&file("f", 1, 1, false)));
    let rows = folders_information(&vec![hierarchy()]);
    let text: Vec<String> = rows
        .iter()
        .map(|row| match row {
            InformationRow::Folder { pathname } => pathname.clone(),
            InformationRow::Entry { kind, size, modified, name } => format!("{kind:?} {size} {modified} {name}"),
        })
        .collect();
    assert_eq!(
        text,
        vec![
            "/top",
            "File 10 1 a",
            "Dir 50 7 sub",
            "Dir 20 7 empty",
            "/top/sub",
            "File 5 2 b",
            "File 6 3 c",
        ]
    );
    assert!(matches!(rows[1], InformationRow::Entry { kind: EntryKind::File, .. }));
    assert!(folders_information(&vec![file("f", 1, 1, false)]).is_empty());
}

#[test]
fn details_show_folders_files_and_totals() {
    let report = folders_details(&vec![hierarchy()]);
    let text: Vec<String> = report
        .rows
        .iter()
        .map(|row| match row {
            DetailRow::Folder { files, folders, size, pathname } => format!("{files} {folders} {size} {pathname}"),
            DetailRow::File { size, name } => format!("- - {size} {name}"),
        })
        .collect();
    assert_eq!(text, vec!["1 2 100 /top", "- - 10 a", "2 0 50 /top/sub", "- - 5 b", "- - 6 c", "0 0 20 /top/empty"]);
    assert_eq!((report.files, report.folders, report.size), (3, 2, 191));
    let report = folders_details(&vec![file("f", 9, 0, false)]);
    assert!(report.rows.is_empty());
    assert_eq!((report.files, report.folders, report.size), (0, 0, 9));
}

#[test]
fn summary_counts_children_and_sizes() {
    let report = folders_summary(&vec![hierarchy()]);
    let text: Vec<String> =
        report.rows.iter().map(|row| format!("{} {} {} {}", row.files, row.folders, row.size, row.pathname)).collect();
    assert_eq!(text, vec!["1 2 180 /top", "2 0 61 /top/sub", "0 0 20 /top/empty"]);
    assert_eq!((report.files, report.folders, report.size), (3, 2, 261));
    assert!(!report.show_totals);
    let report = folders_summary(&vec![hierarchy(), folder("/other", 1, vec![])]);
    assert!(report.show_totals);
    assert_eq!((report.files, report.folders, report.size), (3, 2, 262));
}

#[test]
fn problem_rows_list_folders_and_their_problems() {
    let problem = |name: &str, description: &str| {
        Metadata::Problem(ProblemMd {
            id: 0,
            parent_id: 0,
            pathname: format!("/p/{name}"),
            name: name.to_string(),
            description: description.to_string(),
        })
    };
    let problems = vec![
        folder("/p", 0, vec![problem("one", "denied"), file("ignored", 1, 1, false), problem("two", "gone")]),
        file("stray", 1, 1, false),
    ];
    let rows = problems_rows(&problems);
    let text: Vec<String> = rows
        .iter()
        .map(|row| match row {
            ProblemRow::Folder { pathname } => pathname.clone(),
            ProblemRow::Problem { name, description } => format!("{name}: {description}"),
        })
        .collect();
    assert_eq!(text, vec!["/p", "one: denied", "two: gone"]);
}

#[test]
fn files_size_of_matching_files() {
    let first = folder_md("/m/a", 0, vec![file("x", 10, 0, false), file("y", 32, 0, false), file("z", 1, 0, false)]);
    let second = folder_md("/m/b", 0, vec![file("x", 10, 0, false), file("y", 32, 0, false)]);
    let third = folder_md("/m/c", 0, vec![file("x", 10, 0, false), file("y", 32, 0, false)]);
    let folders_match = FoldersMatchMd {
        fgid: FolderGroupId::new(vec![1, 2, 3]),
        folders_md: vec![&first, &second, &third],
        matches: vec!["x", "y"],
        except: vec!["z"],
        other_matches: vec![],
    };
    assert_eq!(files_size(&folders_match), (42, 126));
}

#[test]
fn db_information_text_lines() {
    let info = DbInformation {
        root_folders: vec!["/a".to_string(), "/b".to_string()],
        file_count: 1234567,
        folder_count: 12,
        problem_count: 0,
        database_size: 1572864,
    };
    let text = db_information_text("test.db", "1.5Mb", &info);
    assert_eq!(
        text,
        "Database: test.db\n  Size: 1.5Mb\nRoot Folders:\n  /a\n  /b\nRow Counts:\n   Folders:      12\n     Files: 1,234,567\n  Problems:       0\n"
    );
}

#[test]
fn folders_md_size_and_holds_named() {
    let first = folder_md("/m/a", 0, vec![file("x", 10, 0, false), file("y", 32, 0, false)]);
    let second = folder_md("/m/b", 0, vec![file("x", 10, 0, false), file("y", 32, 0, false)]);
    assert!(holds_named(&first, &vec!["x", "y"]));
    assert!(!holds_named(&first, &vec!["x", "q"]));
    assert!(holds_named(&first, &vec![]));
    assert_eq!(folders_md_size(&vec![&first, &second], &vec!["y"]), (32, 64));
    assert_eq!(folders_md_size(&vec![&first], &vec![]), (0, 0));
}

#[test]
fn report_totals_fit_in_64_bits() {
    let big = |id: i64, size: u64| {
        Metadata::File(FileMd {
            id,
            parent_id: 1,
            pathname: format!("/r/f{id}"),
            name: format!("f{id}"),
            is_symlink: false,
            size,
            created: 0,
            modified: 0,
        })
    };
    let folder = |children: Vec<Metadata>| {
        Metadata::Folder(FolderMd {
            id: 1,
            parent_id: 0,
            pathname: "/r".to_string(),
            name: "r".to_string(),
            size: 0,
            created: 0,
            modified: 0,
            children,
        })
    };
    assert!(details_fit(&vec![folder(vec![big(2, 10), big(3, 20)])]));
    assert!(summary_fits(&vec![folder(vec![big(2, 10), big(3, 20)])]));
    assert!(!details_fit(&vec![folder(vec![big(2, u64::MAX), big(3, 1)])]));
    assert!(!summary_fits(&vec![folder(vec![big(2, u64::MAX), big(3, 1)])]));
    assert!(!details_fit(&vec![folder(vec![big(2, u64::MAX)]), folder(vec![big(3, 1)])]));
}
