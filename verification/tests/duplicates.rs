use fsview::duplicates::{join_lines, DuplicateFolders, DuplicateFoldersBuilder, Error};
use fsview::groupid::FolderGroupId;
use fsview::matching::{files_size, DuplicateFoldersMatch};
use fsview::nomatch::FoldersNoMatch;
use fsview::objects::{DuplicateIds, FileMd, FolderMd, Metadata};

fn file(id: i64, parent_id: i64, name: &str, size: u64) -> Metadata {
    Metadata::File(FileMd {
        id,
        parent_id,
        pathname: String::new(),
        name: name.to_string(),
        is_symlink: false,
        size,
        created: 0,
        modified: 0,
    })
}

fn folder(id: i64, pathname: &str, children: Vec<Metadata>) -> FolderMd {
    FolderMd {
        id,
        parent_id: 0,
        pathname: pathname.to_string(),
        name: pathname.rsplit('/').next().unwrap().to_string(),
        size: 0,
        created: 0,
        modified: 0,
        children,
    }
}

fn ids(filename: &str, ids: Vec<(i64, i64)>) -> DuplicateIds {
    DuplicateIds { filename: filename.to_string(), ids }
}

/// Folders one and two hold `a`, `b` and `c`, folder three only `a`; `a` and `b` have the
/// same size in one and two, `c` does not, and `a` in three differs from both.
fn duplicate_folders() -> DuplicateFolders {
    let mut builder = DuplicateFoldersBuilder::new();
    builder.add_folder_md(folder(1, "/d/one", vec![file(11, 1, "a", 10), file(12, 1, "b", 5), file(13, 1, "c", 7)]));
    builder.add_folder_md(folder(2, "/d/two", vec![file(21, 2, "a", 10), file(22, 2, "b", 5), file(23, 2, "c", 8)]));
    builder.add_folder_md(folder(3, "/d/three", vec![file(31, 3, "a", 99)]));
    builder.add_duplicate_ids(ids("a", vec![(1, 11), (2, 21), (3, 31)]));
    builder.add_duplicate_ids(ids("b", vec![(1, 12), (2, 22)]));
    builder.add_duplicate_ids(ids("c", vec![(1, 13), (2, 23)]));
    assert!(builder.errors.is_empty());
    assert!(builder.is_ready());
    built(builder)
}

fn built(builder: DuplicateFoldersBuilder) -> DuplicateFolders {
    match builder.build() {
        Ok(duplicate_folders) => duplicate_folders,
        Err(error) => panic!("{}", error.message()),
    }
}

#[test]
fn duplicate_folders_groups_by_shared_filenames() {
    let duplicate_folders = duplicate_folders();
    let mut groups = duplicate_folders.iter();
    let first = groups.next().unwrap();
    assert_eq!(first.fgid, FolderGroupId::new(vec![1, 2]));
    assert_eq!(first.filenames, vec!["b", "c"]);
    let pathnames: Vec<&str> = first.folders_md.iter().map(|md| md.pathname.as_str()).collect();
    assert_eq!(pathnames, vec!["/d/one", "/d/two"]);
    let second = groups.next().unwrap();
    assert_eq!(second.fgid, FolderGroupId::new(vec![1, 2, 3]));
    assert_eq!(second.filenames, vec!["a"]);
    assert!(groups.next().is_none());
}

#[test]
fn folders_match_examined_matched_and_excepted() {
    let folders_match = DuplicateFoldersMatch::from(duplicate_folders());
    assert_eq!(folders_match.len(), 1);
    let mut matches = folders_match.iter();
    let md = matches.next().unwrap();
    assert_eq!(md.fgid, FolderGroupId::new(vec![1, 2]));
    assert_eq!(md.matches, vec!["a", "b", "c"]);
    assert_eq!(md.except, vec!["c"]);
    assert!(md.other_matches.is_empty());
    // the sizes of a, b and c in the first folder, and that for both folders
    assert_eq!(files_size(&md), (22, 44));
    assert!(matches.next().is_none());
}

#[test]
fn folders_no_match_by_pathname() {
    let no_match = FoldersNoMatch::from(duplicate_folders());
    assert_eq!(no_match.len(), 3);
    let mut entries = no_match.iter();
    let one = entries.next().unwrap();
    assert_eq!(one.folder_md.pathname, "/d/one");
    assert_eq!(one.filenames, vec!["c"]);
    assert_eq!(one.other_matches, 2);
    let three = entries.next().unwrap();
    assert_eq!(three.folder_md.pathname, "/d/three");
    assert_eq!(three.filenames, vec!["a"]);
    assert_eq!(three.other_matches, 0);
    let two = entries.next().unwrap();
    assert_eq!(two.folder_md.pathname, "/d/two");
    assert_eq!(two.filenames, vec!["c"]);
    assert_eq!(two.other_matches, 2);
    assert!(entries.next().is_none());
}

#[test]
fn builder_without_duplicates_is_not_ready() {
    let mut builder = DuplicateFoldersBuilder::new();
    builder.add_folder_md(folder(1, "/d/one", vec![file(11, 1, "a", 10)]));
    assert!(builder.is_ready());
    let duplicate_folders = built(builder);
    assert!(duplicate_folders.iter().next().is_none());
}

#[test]
fn builder_rejects_ids_of_an_unknown_folder() {
    let mut builder = DuplicateFoldersBuilder::new();
    builder.add_folder_md(folder(1, "/d/one", vec![file(11, 1, "a", 10)]));
    builder.add_duplicate_ids(ids("a", vec![(1, 11), (9, 91)]));
    assert_eq!(builder.errors.len(), 1);
    // the rejected ids formed no folder group, but the recorded error fails the build
    assert!(builder.is_ready());
    let error = builder.build().err().unwrap();
    assert!(error.message().starts_with("domain: Yikes... "));
}

#[test]
fn errors_join_with_newlines() {
    let lines = vec!["one".to_string(), "two".to_string(), "three".to_string()];
    assert_eq!(join_lines(&lines), "one\ntwo\nthree");
    assert_eq!(join_lines(&vec![]), "");
    assert_eq!(Error::from_message("boom").message(), "domain: boom");
}

#[test]
fn replaced_folder_is_named_in_the_error() {
    let mut builder = DuplicateFoldersBuilder::new();
    builder.add_folder_md(folder(1, "/d/one", vec![file(11, 1, "a", 10)]));
    builder.add_folder_md(folder(1, "/d/uno", vec![]));
    assert_eq!(builder.errors.len(), 1);
    let replaced = folder(1, "/d/one", vec![file(11, 1, "a", 10)]);
    assert_eq!(builder.errors[0], format!("Yikes... {:?} was already added!", replaced));
}

#[test]
fn same_duplicate_ids_twice_add_one_error() {
    let mut builder = DuplicateFoldersBuilder::new();
    builder.add_folder_md(folder(1, "/d/one", vec![file(11, 1, "a", 10)]));
    builder.add_folder_md(folder(2, "/d/two", vec![file(21, 2, "a", 10)]));
    builder.add_duplicate_ids(ids("a", vec![(1, 11), (2, 21)]));
    assert!(builder.errors.is_empty());
    builder.add_duplicate_ids(ids("a", vec![(2, 21), (1, 11)]));
    assert_eq!(builder.errors.len(), 1);
    assert!(builder.errors[0].contains(" a already exists in [\"a\"]!"));
    assert_eq!(builder.folder_group_filenames.len(), 1);
    assert_eq!(builder.folder_group_filenames[0].1, vec!["a".to_string()]);
    assert!(builder.build().is_err());
}
