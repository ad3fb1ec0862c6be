use std::path::Path;
use utas::file::{
    compare_dirs_content, compare_files_content, dirs_contents_are_same, files_are_same,
    CompareContentResult, CompareDirsContentResult, Diff, DirDiff, ListedFile,
};

fn bytes(content: &str) -> Vec<u8> {
    content.as_bytes().to_vec()
}

fn shown(dir: &str, relative: &str) -> String {
    format!("{:?}", Path::new(dir).join(relative))
}

fn components(relative: &str) -> Vec<String> {
    relative.split('/').map(|part| part.to_string()).collect()
}

fn listed(dir: &str, relative: &str, content: &str) -> ListedFile {
    ListedFile {
        path: shown(dir, relative),
        relative: components(relative),
        content: content.to_string(),
    }
}

fn stored(relative: &str, content: &str) -> (Vec<String>, Vec<u8>) {
    (components(relative), bytes(content))
}

#[test]
fn file_files_are_same_0() {
    let file1 = bytes("lol\nkek\nchebureck\nlolkek");
    let file2 = bytes("lol\nkek\nchebureck\nlolkek");
    assert!(files_are_same(&file1, &file2));
}

#[test]
fn file_files_are_same_1() {
    let file1 = bytes("kek");
    let file2 = bytes("kek");
    assert!(files_are_same(&file1, &file2));
}

#[test]
fn files_are_not_same() {
    let file1 = bytes("1000-2000");
    let file2 = bytes("1000-3_000");
    assert!(!files_are_same(&file1, &file2));
}

#[test]
fn files_ara_not_same() {
    let file1 = bytes("1000-2000");
    let file2 = bytes("1000-3_000");
    assert!(!files_are_same(&file1, &file2));
}

#[test]
fn file_dir_is_equivalent_to_itself() {
    let dir1 = vec![
        stored("file1.txt", "FILE1_CONTENT"),
        stored("file2.txt", "FILE2_CONTENT"),
    ];
    assert!(dirs_contents_are_same(&dir1, &dir1));
}

#[test]
fn file_dirs_are_same_0() {
    let dir1 = vec![
        stored("file1.txt", "FILE1_CONTENT"),
        stored("file2.txt", "FILE2_CONTENT"),
    ];
    let dir2 = vec![
        stored("file1.txt", "FILE1_CONTENT"),
        stored("file2.txt", "FILE2_CONTENT"),
    ];
    assert!(dirs_contents_are_same(&dir1, &dir2));
}

#[test]
fn file_dirs_are_same_2_level_nesting() {
    let dir1 = vec![
        stored("path1/file1.txt", "FILE1_CONTENT"),
        stored("path2/file2.txt", "FILE2_CONTENT"),
    ];
    let dir2 = vec![
        stored("path1/file1.txt", "FILE1_CONTENT"),
        stored("path2/file2.txt", "FILE2_CONTENT"),
    ];
    assert!(dirs_contents_are_same(&dir1, &dir2));
}

#[test]
fn file_empty_dirs_are_same() {
    let dir1: Vec<(Vec<String>, Vec<u8>)> = vec![];
    let dir2: Vec<(Vec<String>, Vec<u8>)> = vec![];
    assert!(dirs_contents_are_same(&dir1, &dir2));
}

#[test]
fn file_dirs_are_not_same_when_one_of_them_is_empty() {
    let dir1 = vec![
        stored("path1/file1.txt", "FILE1_CONTENT"),
        stored("path2/file2.txt", "FILE2_CONTENT"),
    ];
    let dir2: Vec<(Vec<String>, Vec<u8>)> = vec![];
    assert!(!dirs_contents_are_same(&dir1, &dir2));
}

#[test]
fn file_dirs_are_not_same_when_paths_are_different() {
    let dir1 = vec![
        stored("path1/file1.txt", "FILE1_CONTENT"),
        stored("path2/file2.txt", "FILE2_CONTENT"),
    ];
    let dir2 = vec![
        stored("path1/file1.txt", "FILE1_CONTENT"),
        stored("path_3/file2.txt", "FILE2_CONTENT"),
    ];
    assert!(!dirs_contents_are_same(&dir1, &dir2));
}

#[test]
fn file_dirs_are_not_same_when_contents_are_different() {
    let dir1 = vec![
        stored("path1/file1.txt", "FILE_2_CONTENT"),
        stored("path2/file2.txt", "FILE_1_CONTENT"),
    ];
    let dir2 = vec![
        stored("path1/file1.txt", "FILE_1_CONTENT"),
        stored("path2/file2.txt", "FILE_2_CONTENT"),
    ];
    assert!(!dirs_contents_are_same(&dir1, &dir2));
}

#[test]
fn files_have_eq_content() {
    let file1 = "lol\nkek\nchebureck\nlolkek";
    let file2 = "lol\nkek\nchebureck\nlolkek";
    let result = compare_files_content(file1, file2);

    assert_eq!(CompareContentResult::Eq, result);
}

#[test]
fn files_have_diff_content_in_1_lines() {
    let file1 = "lol\nkek\nchebureck\nlolkek";
    let file2 = "lol\nkek\nWAAAAAA\nlolkek";
    let result = compare_files_content(file1, file2);

    let expected = CompareContentResult::Diffs(vec![Diff {
        line_number: 3,
        left: "chebureck".to_string(),
        right: "WAAAAAA".to_string(),
    }]);
    assert_eq!(expected, result);
}

#[test]
fn files_have_diff_content_in_2_lines() {
    let file1 = "lol\nkek\nchebureck\nlolkek";
    let file2 = "lol\nkek\nWAAAAAA\nlolkekus";
    let result = compare_files_content(file1, file2);

    let expected = CompareContentResult::Diffs(vec![
        Diff {
            line_number: 3,
            left: "chebureck".to_string(),
            right: "WAAAAAA".to_string(),
        },
        Diff {
            line_number: 4,
            left: "lolkek".to_string(),
            right: "lolkekus".to_string(),
        },
    ]);
    assert_eq!(expected, result);
}

#[test]
fn files_have_diff_content_length() {
    let file1 = "lol\nkek\nchebureck\nlolkek";
    let file2 = "lol\nkek\nchebureck\n";
    let result = compare_files_content(file1, file2);

    let expected = CompareContentResult::Diffs(vec![Diff {
        line_number: 4,
        left: "lolkek".to_string(),
        right: "".to_string(),
    }]);
    assert_eq!(expected, result);
}

#[test]
fn dirs_content_is_equivalent_to_itself() {
    let dir1 = vec![
        listed("dir1", "file1.txt", "FILE1_CONTENT"),
        listed("dir1", "file2.txt", "FILE2_CONTENT"),
    ];

    let result = compare_dirs_content(&dir1, &dir1);

    assert_eq!(CompareDirsContentResult::Eq, result);
}

#[test]
fn dirs_have_the_same_content() {
    let dir1 = vec![
        listed("dir1", "file1.txt", "FILE1_CONTENT"),
        listed("dir1", "file2.txt", "FILE2_CONTENT"),
    ];
    let dir2 = vec![
        listed("dir2", "file1.txt", "FILE1_CONTENT"),
        listed("dir2", "file2.txt", "FILE2_CONTENT"),
    ];

    let result = compare_dirs_content(&dir1, &dir2);

    assert_eq!(CompareDirsContentResult::Eq, result);
}

#[test]
fn dirs_have_the_same_content_2_level() {
    let dir1 = vec![
        listed("dir1", "path1/file1.txt", "FILE1_CONTENT"),
        listed("dir1", "path2/file2.txt", "FILE2_CONTENT"),
    ];
    let dir2 = vec![
        listed("dir2", "path1/file1.txt", "FILE1_CONTENT"),
        listed("dir2", "path2/file2.txt", "FILE2_CONTENT"),
    ];

    let result = compare_dirs_content(&dir1, &dir2);

    assert_eq!(CompareDirsContentResult::Eq, result);
}

#[test]
fn empty_dirs_have_the_same_content() {
    let dir1: Vec<ListedFile> = vec![];
    let dir2: Vec<ListedFile> = vec![];

    let result = compare_dirs_content(&dir1, &dir2);
    assert_eq!(CompareDirsContentResult::Eq, result);
}

#[test]
fn dirs_have_diff_content_if_one_of_then_is_empty() {
    let dir1 = vec![
        listed("dir1", "path1/file1.txt", "FILE1_CONTENT"),
        listed("dir1", "path2/file2.txt", "FILE2_CONTENT"),
    ];
    let dir2: Vec<ListedFile> = vec![];

    let result = compare_dirs_content(&dir1, &dir2);
    let expected = CompareDirsContentResult::Diffs(vec![
        DirDiff::Path {
            left: Option::Some(shown("dir1", "path1/file1.txt")),
            right: None,
        },
        DirDiff::Path {
            left: Option::Some(shown("dir1", "path2/file2.txt")),
            right: None,
        },
    ]);

    assert_eq!(expected, result);
}

#[test]
fn dirs_have_diff_content_if_files_have_different_paths() {
    let dir1 = vec![
        listed("dir1", "path1/file1.txt", "FILE1_CONTENT"),
        listed("dir1", "path2/file2.txt", "FILE2_CONTENT"),
    ];
    let dir2 = vec![
        listed("dir2", "path1/file1.txt", "FILE1_CONTENT"),
        listed("dir2", "path_3/file2.txt", "FILE2_CONTENT"),
    ];

    let result = compare_dirs_content(&dir1, &dir2);
    let expected = CompareDirsContentResult::Diffs(vec![DirDiff::Path {
        left: Option::Some(shown("dir1", "path2/file2.txt")),
        right: Option::Some(shown("dir2", "path_3/file2.txt")),
    }]);

    assert_eq!(expected, result);
}

#[test]
fn dirs_have_diff_content_if_files_have_different_content() {
    let dir1 = vec![
        listed("dir1", "path1/file1.txt", "FILE1_CONTENT"),
        listed("dir1", "path2/file2.txt", "FILE2_CONTENT"),
    ];
    let dir2 = vec![
        listed("dir2", "path1/file1.txt", "FILE1_CONTENT"),
        listed("dir2", "path2/file2.txt", "FIRST_LINE\nSECOND_LINE"),
    ];

    let result = compare_dirs_content(&dir1, &dir2);
    let expected = CompareDirsContentResult::Diffs(vec![DirDiff::FileContent {
        path: shown("dir1", "path2/file2.txt"),
        diffs: vec![
            Diff {
                line_number: 1,
                left: "FILE2_CONTENT".to_string(),
                right: "FIRST_LINE".to_string(),
            },
            Diff {
                line_number: 2,
                left: "".to_string(),
                right: "SECOND_LINE".to_string(),
            },
        ],
    }]);

    assert_eq!(expected, result);
}

#[test]
fn dirs_have_diff_content_if_files_have_different_content_and_path() {
    let dir1 = vec![
        listed("dir1", "path1/file!1.txt", "FILE1_CONTENT"),
        listed("dir1", "path2/file2.txt", "FILE2_CONTENT"),
    ];
    let dir2 = vec![
        listed("dir2", "path1/file1.txt", "FILE1_CONTENT"),
        listed("dir2", "path2/file2.txt", "FIRST_LINE\n\nSECOND_LINE"),
    ];

    let result = compare_dirs_content(&dir1, &dir2);
    let expected = CompareDirsContentResult::Diffs(vec![
        DirDiff::Path {
            left: Option::Some(shown("dir1", "path1/file!1.txt")),
            right: Option::Some(shown("dir2", "path1/file1.txt")),
        },
        DirDiff::FileContent {
            path: shown("dir1", "path2/file2.txt"),
            diffs: vec![
                Diff {
                    line_number: 1,
                    left: "FILE2_CONTENT".to_string(),
                    right: "FIRST_LINE".to_string(),
                },
                Diff {
                    line_number: 3,
                    left: "".to_string(),
                    right: "SECOND_LINE".to_string(),
                },
            ],
        },
    ]);

    assert_eq!(expected, result);
}

#[test]
fn files_compare_after_trimming_each_line() {
    let result = compare_files_content("  a \r\n\tb\n", "a\nb");
    assert_eq!(CompareContentResult::Eq, result);
    let result = compare_files_content("", "");
    assert_eq!(CompareContentResult::Eq, result);
    let result = compare_files_content("", "\n\n");
    assert_eq!(CompareContentResult::Eq, result);
    let result = compare_files_content("a b", "ab");
    assert_eq!(
        CompareContentResult::Diffs(vec![Diff {
            line_number: 1,
            left: "a b".to_string(),
            right: "ab".to_string(),
        }]),
        result
    );
}

#[test]
fn dirs_report_files_missing_on_the_left() {
    let dir1: Vec<ListedFile> = vec![];
    let dir2 = vec![listed("dir2", "file1.txt", "A")];
    let result = compare_dirs_content(&dir1, &dir2);
    assert_eq!(
        CompareDirsContentResult::Diffs(vec![DirDiff::Path {
            left: None,
            right: Some(shown("dir2", "file1.txt")),
        }]),
        result
    );
}

#[test]
fn files_of_different_length_are_not_same() {
    assert!(!files_are_same(&bytes("abc"), &bytes("ab")));
    assert!(files_are_same(&bytes(""), &bytes("")));
    assert!(!files_are_same(&bytes("abc"), &bytes("abd")));
}

#[test]
fn listings_are_compared_in_the_order_of_their_paths() {
    let dir1 = vec![
        stored("b/file.txt", "B"),
        stored("a/z.txt", "Z"),
        stored("a/file.txt", "A"),
    ];
    let dir2 = vec![
        stored("a/file.txt", "A"),
        stored("b/file.txt", "B"),
        stored("a/z.txt", "Z"),
    ];
    assert!(dirs_contents_are_same(&dir1, &dir2));
    let listed1 = vec![
        listed("dir1", "b/file.txt", "B"),
        listed("dir1", "a/z.txt", "Z"),
        listed("dir1", "a/file.txt", "A"),
    ];
    let listed2 = vec![
        listed("dir2", "a/file.txt", "A"),
        listed("dir2", "b/file.txt", "C"),
        listed("dir2", "a/z.txt", "Z"),
    ];
    assert_eq!(
        compare_dirs_content(&listed1, &listed2),
        CompareDirsContentResult::Diffs(vec![DirDiff::FileContent {
            path: shown("dir1", "b/file.txt"),
            diffs: vec![Diff {
                line_number: 1,
                left: "B".to_string(),
                right: "C".to_string(),
            }],
        }])
    );
}

#[test]
fn paths_are_ordered_component_by_component() {
    let dir1 = vec![
        listed("dir1", "a-b", "1"),
        listed("dir1", "a/b", "2"),
        listed("dir1", "a", "3"),
        listed("dir1", "B", "4"),
        listed("dir1", "a/b/c", "5"),
        listed("dir1", "\u{e9}", "6"),
    ];
    let dir2: Vec<ListedFile> = vec![];
    let expected: Vec<DirDiff> = ["B", "a", "a/b", "a/b/c", "a-b", "\u{e9}"]
        .iter()
        .map(|relative| DirDiff::Path {
            left: Some(shown("dir1", relative)),
            right: None,
        })
        .collect();
    assert_eq!(
        compare_dirs_content(&dir1, &dir2),
        CompareDirsContentResult::Diffs(expected)
    );
}

#[test]
fn paths_are_ordered_as_paths_are() {
    let mut relatives = vec![
        "a-b", "a/b", "a", "B", "a/b/c", "\u{e9}", "ab", "a/a", "b", "a/b/", "z/0", "a/c",
    ];
    let dir1: Vec<ListedFile> = relatives
        .iter()
        .map(|relative| ListedFile {
            path: relative.to_string(),
            relative: Path::new(relative)
                .components()
                .map(|part| part.as_os_str().to_string_lossy().into_owned())
                .collect(),
            content: String::new(),
        })
        .collect();
    relatives.sort_by(|a, b| Path::new(a).cmp(Path::new(b)));
    let expected: Vec<DirDiff> = relatives
        .iter()
        .map(|relative| DirDiff::Path {
            left: Some(relative.to_string()),
            right: None,
        })
        .collect();
    assert_eq!(
        compare_dirs_content(&dir1, &vec![]),
        CompareDirsContentResult::Diffs(expected)
    );
}

#[test]
fn listings_with_different_paths_are_not_same() {
    let dir1 = vec![stored("a/b", "1")];
    let dir2 = vec![stored("a-b", "1")];
    assert!(!dirs_contents_are_same(&dir1, &dir2));
    let dir3 = vec![stored("a/b", "1"), stored("a/b", "1")];
    assert!(!dirs_contents_are_same(&dir1, &dir3));
}
