use fsview::analysis::{analyze_folders_file, analyze_folders_files};
use fsview::duplicates::DuplicateFoldersBuilder;
use fsview::filematch::folder_file_matches;
use fsview::groupid::FolderGroupId;
use fsview::objects::{DuplicateIds, FileMd, FolderMd, Metadata};
use fsview::sorting::{vsort, vsort_by};
use std::path::PathBuf;

fn file_md(id: i64, parent_id: i64, filename: &str, size: u64) -> FileMd {
    FileMd {
        id,
        parent_id,
        pathname: String::default(),
        name: filename.to_string(),
        is_symlink: false,
        size,
        created: 0,
        modified: 0,
    }
}

fn folder_md(id: i64, pathname: &str, children: Vec<FileMd>) -> FolderMd {
    let pathname: PathBuf = PathBuf::from(pathname).components().into_iter().collect();
    let children: Vec<Metadata> = children
        .into_iter()
        .map(|mut md| {
            md.parent_id = id;
            md.pathname = pathname.join(&md.name).as_path().display().to_string();
            Metadata::File(md)
        })
        .collect();
    FolderMd {
        id,
        parent_id: 0,
        pathname: pathname.to_string_lossy().to_string(),
        name: pathname.file_name().unwrap().to_string_lossy().to_string(),
        size: 0,
        created: 0,
        modified: 0,
        children,
    }
}

fn duplicate_ids(filename: &str, ids: Vec<(i64, i64)>) -> DuplicateIds {
    DuplicateIds { filename: filename.to_string(), ids }
}

fn duplicate_folders_builder(md: Vec<FolderMd>) -> DuplicateFoldersBuilder {
    let mut builder = DuplicateFoldersBuilder::new();
    md.into_iter().for_each(|folder_md| {
        builder.add_folder_md(folder_md);
    });
    assert!(builder.errors.is_empty());
    builder
}

#[test]
fn vec_sort() {
    let mut testcase: Vec<i64> = Vec::with_capacity(5);
    [3, 2, 1].into_iter().for_each(|id| testcase.push(id));
    assert_eq!(testcase, [3, 2, 1]);
    assert_eq!(testcase.capacity(), 5);
    vsort(&mut testcase);
    assert_eq!(testcase, [1, 2, 3]);
    assert_eq!(testcase.capacity(), 3);
    let mut testcase: Vec<(i64, String)> = Vec::with_capacity(10);
    let one = (1, "nop".to_string());
    let two = (2, "abc".to_string());
    let three = (3, "xyz".to_string());
    [three.clone(), two.clone(), one.clone()].iter().for_each(|(id, name)| testcase.push((*id, name.clone())));
    assert_eq!(testcase, [three.clone(), two.clone(), one.clone()]);
    assert_eq!(testcase.capacity(), 10);
    vsort_by(&mut testcase, |(_, lhs), (_, rhs)| lhs.cmp(rhs));
    assert_eq!(testcase, [two, one, three]);
    assert_eq!(testcase.capacity(), 3);
}

#[test]
fn folder_file_matches_fn() {
    let filename = "file.dat";
    let file_mds = vec![
        file_md(1, 1, filename, 256),
        file_md(2, 2, filename, 8196),
        file_md(3, 3, filename, 256),
        file_md(4, 4, filename, 8196),
        file_md(5, 5, filename, 0),
    ];
    let files_md: Vec<&FileMd> = file_mds.iter().map(|md| md).collect();
    let (matches, no_match) = folder_file_matches(files_md);
    assert_eq!(matches.len(), 2);
    for match_group in matches {
        assert_eq!(match_group.len(), 2);
        if match_group[0].size == 256 {
            assert_eq!(FolderGroupId::from_files(match_group), FolderGroupId::new(vec![1, 3]));
        } else {
            assert_eq!(FolderGroupId::from_files(match_group), FolderGroupId::new(vec![2, 4]));
        }
    }
    assert_eq!(no_match.len(), 1);
    assert_eq!(no_match[0].id, 5);
}

#[test]
fn folders_file_matches_fn() {
    let filename = "fname";
    let folders_md = vec![
        folder_md(1, "/folder/one", vec![file_md(11, 0, filename, 100)]),
        folder_md(2, "/folder/two", vec![file_md(21, 0, filename, 1024)]),
        folder_md(3, "/folder/three", vec![file_md(31, 0, filename, 100)]),
        folder_md(4, "/folder/four", vec![file_md(41, 0, filename, 1024)]),
        folder_md(5, "/folder/five", vec![file_md(51, 0, filename, 512)]),
    ];
    let testcase: Vec<&FolderMd> = folders_md.iter().map(|md| md).collect();
    let (mut matches, no_matches) = analyze_folders_file(&testcase, filename);
    matches.sort();
    assert_eq!(matches.len(), 2);
    assert_eq!(matches[0], FolderGroupId::new(vec![1, 3]));
    assert_eq!(matches[1], FolderGroupId::new(vec![2, 4]));
    assert_eq!(no_matches.len(), 1);
    assert_eq!(no_matches[0], 5);
}

#[test]
fn analyze_folders_files_fn() {
    let match1 = "match1";
    let match2 = "match2";
    let match3 = "match3";
    let no_match = "no_match";
    let duplicate_folders = vec![
        folder_md(
            1,
            "/folder/one",
            vec![
                file_md(11, 0, match1, 100),
                file_md(12, 0, match2, 200),
                file_md(13, 0, match3, 100),
                file_md(14, 0, no_match, 1),
            ],
        ),
        folder_md(
            2,
            "/folder/two",
            vec![
                file_md(21, 0, match1, 10),
                file_md(22, 0, match2, 200),
                file_md(23, 0, match3, 10),
                file_md(24, 0, no_match, 2),
            ],
        ),
        folder_md(
            3,
            "/folder/three",
            vec![
                file_md(31, 0, match1, 100),
                file_md(32, 0, match2, 200),
                file_md(33, 0, match3, 100),
                file_md(34, 0, no_match, 3),
            ],
        ),
        folder_md(
            4,
            "/folder/four",
            vec![
                file_md(41, 0, match1, 10),
                file_md(42, 0, match2, 200),
                file_md(43, 0, match3, 10),
                file_md(44, 0, no_match, 4),
            ],
        ),
    ];
    let folders_md: Vec<&FolderMd> = duplicate_folders.iter().map(|md| md).collect();
    let filenames = vec![match1.to_string(), match2.to_string(), match3.to_string(), no_match.to_string()];
    let mut folder_analysis = analyze_folders_files(folders_md, &filenames);
    assert_eq!(folder_analysis.matches.len(), 3);
    folder_analysis.matches.sort_by(|(lhs, _), (rhs, _)| lhs.cmp(&rhs));
    let testcase = vec![
        (FolderGroupId::new(vec![1, 2, 3, 4]), vec![match2]),
        (FolderGroupId::new(vec![1, 3]), vec![match1, match3]),
        (FolderGroupId::new(vec![2, 4]), vec![match1, match3]),
    ];
    for (i, (fgid, fnames)) in testcase.iter().enumerate() {
        assert_eq!(folder_analysis.matches[i].0, *fgid);
        assert_eq!(folder_analysis.matches[i].1, *fnames);
    }
    assert_eq!(folder_analysis.no_matches.len(), 4);
    folder_analysis.no_matches.sort_by(|(lhs, _), (rhs, _)| lhs.cmp(rhs));
    for (i, id) in [1, 2, 3, 4].iter().enumerate() {
        assert_eq!(folder_analysis.no_matches[i].0, *id);
        assert_eq!(folder_analysis.no_matches[i].1, vec![no_match]);
    }
}

#[test]
fn validate_duplicate_ids() {
    let filename = "a_file";
    let mut builder = duplicate_folders_builder(vec![
        folder_md(1, "folder1", vec![file_md(1, 0, filename, 0)]),
        folder_md(2, "folder2", vec![file_md(2, 0, filename, 0)]),
    ]);
    assert!(builder.validate_duplicate_ids(&duplicate_ids(filename, vec![(1, 1), (2, 2)])));
    assert!(builder.errors.is_empty());
    assert!(!builder.validate_duplicate_ids(&duplicate_ids(filename, vec![(3, 1), (2, 2)])));
    assert!(builder.errors.len() == 1);
    builder.errors.clear();
    assert!(!builder.validate_duplicate_ids(&duplicate_ids(filename, vec![(1, 1), (2, 3)])));
    assert!(builder.errors.len() == 1);
    builder.errors.clear();
    // make sure the filename is a child of the folder
    builder.add_folder_md(folder_md(3, "folder3", vec![file_md(3, 0, "file", 0)]));
    assert!(!builder.validate_duplicate_ids(&duplicate_ids(filename, vec![(1, 1), (3, 3)])));
    assert!(builder.errors.len() == 1);
}

#[test]
fn test() {}

#[test]
fn builder_readiness() {
    let mut builder = DuplicateFoldersBuilder::new();
    builder.add_folder_md(folder_md(1, "folder1", vec![file_md(11, 0, "a", 0)]));
    builder.add_folder_md(folder_md(2, "folder2", vec![file_md(12, 0, "a", 0)]));
    builder.add_duplicate_ids(duplicate_ids("a", vec![(1, 11), (2, 12)]));
    assert!(builder.errors.is_empty());
    assert!(builder.is_ready());
    // replacing a folder of the group with one that no longer holds the file
    builder.add_folder_md(folder_md(2, "folder2", vec![file_md(14, 0, "c", 0)]));
    assert_eq!(builder.errors.len(), 1);
    assert!(!builder.is_ready());
    let error = builder.build().err().unwrap();
    assert!(error.message().starts_with("domain: Yikes... "));
    assert!(error.message().ends_with(" was already added!"));
}

#[test]
fn vsort_by_keeps_equal_elements_in_order() {
    let mut pairs = vec![(2, 'a'), (1, 'b'), (2, 'c'), (1, 'd'), (0, 'e')];
    vsort_by(&mut pairs, |l, r| l.0.cmp(&r.0));
    assert_eq!(pairs, vec![(0, 'e'), (1, 'b'), (1, 'd'), (2, 'a'), (2, 'c')]);
}
