use radicle_surf::diff::git::{change_of_delta, ContentChange, Delta, DiffLine, Error, FileChange, Patch};
use radicle_surf::diff::hunks::{EofNewLine, GitHunk, Hunk, LineDiff};
use std::path::PathBuf;

fn line(origin: char, old: Option<u32>, new: Option<u32>, text: &str) -> DiffLine {
    DiffLine {
        origin,
        old_lineno: old,
        new_lineno: new,
        content_offset: 7,
        content: text.as_bytes().to_vec(),
    }
}

#[test]
fn diff_lines_become_content_changes() {
    match ContentChange::try_from(line('+', None, Some(3), "added")) {
        Ok(ContentChange::Addition(c)) => {
            assert_eq!(c.line, 3);
            assert_eq!(c.offset, 7);
            assert_eq!(c.contents, b"added".to_vec());
        },
        other => panic!("unexpected {:?}", other),
    }
    match ContentChange::try_from(line('-', Some(4), None, "gone")) {
        Ok(ContentChange::Deletion(c)) => assert_eq!(c.line, 4),
        other => panic!("unexpected {:?}", other),
    }
    match ContentChange::try_from(line(' ', Some(5), Some(6), "kept")) {
        Ok(ContentChange::Context(c)) => assert_eq!(c.line, 5),
        other => panic!("unexpected {:?}", other),
    }
    assert!(matches!(
        ContentChange::try_from(line('+', Some(1), None, "x")),
        Err(Error::MissingNewLine)
    ));
    assert!(matches!(
        ContentChange::try_from(line('-', None, Some(1), "x")),
        Err(Error::MissingOldLine)
    ));
    assert!(matches!(
        ContentChange::try_from(line(' ', None, Some(1), "x")),
        Err(Error::MissingOldLine)
    ));
    assert!(matches!(
        ContentChange::try_from(line('>', Some(1), Some(1), "x")),
        Err(Error::UnhandledChange('>'))
    ));
}

#[test]
fn patches_become_file_changes() {
    let added = Patch {
        status: Delta::Added,
        old_path: None,
        new_path: Some(PathBuf::from("a.rs")),
        hunks: vec![],
    };
    assert!(matches!(FileChange::try_from(added), Ok(FileChange::Addition(p)) if p == PathBuf::from("a.rs")));

    let deleted = Patch { status: Delta::Deleted, old_path: None, new_path: None, hunks: vec![] };
    assert!(matches!(FileChange::try_from(deleted), Err(Error::MissingOldPath)));

    let moved = Patch {
        status: Delta::Renamed,
        old_path: Some(PathBuf::from("old.rs")),
        new_path: Some(PathBuf::from("new.rs")),
        hunks: vec![],
    };
    assert!(matches!(
        FileChange::try_from(moved),
        Ok(FileChange::Move { old_path, new_path })
            if old_path == PathBuf::from("old.rs") && new_path == PathBuf::from("new.rs")
    ));

    let copied = Patch { status: Delta::Copied, old_path: None, new_path: None, hunks: vec![] };
    assert!(matches!(FileChange::try_from(copied), Err(Error::UnhandledDelta(Delta::Copied))));
}

#[test]
fn modified_patches_read_every_hunk_in_order() {
    let modified = Patch {
        status: Delta::Modified,
        old_path: Some(PathBuf::from("m.rs")),
        new_path: Some(PathBuf::from("m.rs")),
        hunks: vec![
            vec![line(' ', Some(1), Some(1), "a"), line('-', Some(2), None, "b")],
            vec![line('+', None, Some(9), "c")],
        ],
    };
    match FileChange::try_from(modified) {
        Ok(FileChange::Modification { path, changes }) => {
            assert_eq!(path, PathBuf::from("m.rs"));
            assert_eq!(changes.len(), 3);
            assert!(matches!(&changes[0], ContentChange::Context(c) if c.line == 1));
            assert!(matches!(&changes[1], ContentChange::Deletion(c) if c.line == 2));
            assert!(matches!(&changes[2], ContentChange::Addition(c) if c.line == 9));
        },
        other => panic!("unexpected {:?}", other),
    }

    let broken = Patch {
        status: Delta::Modified,
        old_path: None,
        new_path: Some(PathBuf::from("m.rs")),
        hunks: vec![vec![line('+', None, Some(1), "ok")], vec![line('?', None, None, "bad"), line('+', None, None, "worse")]],
    };
    assert!(matches!(FileChange::try_from(broken), Err(Error::UnhandledChange('?'))));
}

#[test]
fn mod_test_diff() {
    // A patch of README.md in which one line is replaced by two.
    let old_line = "This repository is a data source for the Upstream front-end tests.\n";
    let new_first = "This repository is a data source for the Upstream front-end tests and the\n";
    let new_second =
        "[`radicle-surf`](https://github.com/radicle-dev/git-platinum) unit tests.\n";
    let patch = Patch {
        status: Delta::Modified,
        old_path: Some(PathBuf::from("README.md")),
        new_path: Some(PathBuf::from("README.md")),
        hunks: vec![vec![
            DiffLine {
                origin: '-',
                old_lineno: Some(1),
                new_lineno: None,
                content_offset: 0,
                content: old_line.as_bytes().to_vec(),
            },
            DiffLine {
                origin: '+',
                old_lineno: None,
                new_lineno: Some(1),
                content_offset: 0,
                content: new_first.as_bytes().to_vec(),
            },
            DiffLine {
                origin: '+',
                old_lineno: None,
                new_lineno: Some(2),
                content_offset: new_first.len() as i64,
                content: new_second.as_bytes().to_vec(),
            },
        ]],
    };
    match FileChange::try_from(patch).expect("Error") {
        FileChange::Modification { path, changes } => {
            assert_eq!(path, PathBuf::from("README.md"));
            assert_eq!(changes.len(), 3);
            match &changes[0] {
                ContentChange::Deletion(c) => {
                    assert_eq!(c.line, 1);
                    assert_eq!(c.contents, old_line.as_bytes().to_vec());
                },
                other => panic!("unexpected {:?}", other),
            }
            match &changes[1] {
                ContentChange::Addition(c) => {
                    assert_eq!(c.line, 1);
                    assert_eq!(c.contents, new_first.as_bytes().to_vec());
                },
                other => panic!("unexpected {:?}", other),
            }
            match &changes[2] {
                ContentChange::Addition(c) => {
                    assert_eq!(c.line, 2);
                    assert_eq!(c.offset, new_first.len() as i64);
                    assert_eq!(c.contents, new_second.as_bytes().to_vec());
                },
                other => panic!("unexpected {:?}", other),
            }
        },
        other => panic!("unexpected {:?}", other),
    }
}

#[test]
fn a_delta_with_a_patch_reads_as_that_patch() {
    let hunks = vec![vec![line('+', None, Some(1), "new")]];
    match change_of_delta(
        Delta::Modified,
        Some(PathBuf::from("a.txt")),
        Some(PathBuf::from("a.txt")),
        Some(hunks),
        false,
    ) {
        Ok(FileChange::Modification { path, changes }) => {
            assert_eq!(path, PathBuf::from("a.txt"));
            assert_eq!(changes.len(), 1);
        },
        other => panic!("unexpected {:?}", other),
    }
}

#[test]
fn a_modified_binary_file_without_a_patch_changed_as_a_whole() {
    match change_of_delta(Delta::Modified, None, Some(PathBuf::from("logo.png")), None, true) {
        Ok(FileChange::Modification { path, changes }) => {
            assert_eq!(path, PathBuf::from("logo.png"));
            assert!(changes.is_empty());
        },
        other => panic!("unexpected {:?}", other),
    }
}

#[test]
fn a_modified_text_file_without_a_patch_is_an_error() {
    match change_of_delta(Delta::Modified, None, Some(PathBuf::from("a.txt")), None, false) {
        Err(Error::PatchUnavailable(Some(path))) => assert_eq!(path, PathBuf::from("a.txt")),
        other => panic!("unexpected {:?}", other),
    }
}

#[test]
fn other_deltas_without_a_patch_read_by_their_status() {
    match change_of_delta(Delta::Added, None, Some(PathBuf::from("new.txt")), None, false) {
        Ok(FileChange::Addition(path)) => assert_eq!(path, PathBuf::from("new.txt")),
        other => panic!("unexpected {:?}", other),
    }
    match change_of_delta(
        Delta::Renamed,
        Some(PathBuf::from("old.txt")),
        Some(PathBuf::from("new.txt")),
        None,
        false,
    ) {
        Ok(FileChange::Move { old_path, new_path }) => {
            assert_eq!(old_path, PathBuf::from("old.txt"));
            assert_eq!(new_path, PathBuf::from("new.txt"));
        },
        other => panic!("unexpected {:?}", other),
    }
    assert!(matches!(
        change_of_delta(Delta::Copied, None, None, None, false),
        Err(Error::UnhandledDelta(Delta::Copied))
    ));
}

fn hunk(lines: Vec<DiffLine>) -> GitHunk {
    GitHunk { header: b"@@ -1 +1 @@\n".to_vec(), lines }
}

#[test]
fn test_both_missing_eof_newline() {
    let lines = vec![
        line('-', Some(1), None, "hello=123"),
        line('+', None, Some(1), "hello=1234"),
        line('=', None, None, "\n\\ No newline at end of file\n"),
    ];
    let (hunks, eof) = Hunk::read_hunks(vec![hunk(lines)]).unwrap();
    assert_eq!(eof, Some(EofNewLine::BothMissing));
    assert_eq!(hunks.len(), 1);
    assert_eq!(hunks[0].header, b"@@ -1 +1 @@\n".to_vec());
    assert_eq!(hunks[0].lines.len(), 2);
}

#[test]
fn test_none_missing_eof_newline() {
    let lines = vec![line('-', Some(1), None, "hello=123"), line('+', None, Some(1), "hello=1234")];
    let (hunks, eof) = Hunk::read_hunks(vec![hunk(lines)]).unwrap();
    assert_eq!(eof, None);
    match &hunks[0].lines[0] {
        LineDiff::Deletion { line, line_num } => {
            assert_eq!(line, &b"hello=123".to_vec());
            assert_eq!(*line_num, 1);
        },
        other => panic!("unexpected {:?}", other),
    }
    match &hunks[0].lines[1] {
        LineDiff::Addition { line, line_num } => {
            assert_eq!(line, &b"hello=1234".to_vec());
            assert_eq!(*line_num, 1);
        },
        other => panic!("unexpected {:?}", other),
    }
}

#[test]
fn one_sided_missing_eof_newlines_are_noted_over_all_hunks() {
    let first = hunk(vec![line('>', None, None, "")]);
    let second = hunk(vec![line(' ', Some(3), Some(4), "same")]);
    let (hunks, eof) = Hunk::read_hunks(vec![first, second]).unwrap();
    assert_eq!(eof, Some(EofNewLine::OldMissing));
    assert!(hunks[0].lines.is_empty());
    assert!(matches!(
        hunks[1].lines[0],
        LineDiff::Context { line_num_old: 3, line_num_new: 4, .. }
    ));
    let (_, eof) = Hunk::read_hunks(vec![hunk(vec![line('<', None, None, "")])]).unwrap();
    assert_eq!(eof, Some(EofNewLine::NewMissing));
    let (_, eof) = Hunk::read_hunks(vec![
        hunk(vec![line('<', None, None, "")]),
        hunk(vec![line('>', None, None, "")]),
    ])
    .unwrap();
    assert_eq!(eof, Some(EofNewLine::BothMissing));
}

#[test]
fn a_line_with_no_line_number_fails_the_hunks() {
    let good = hunk(vec![line('+', None, Some(1), "x")]);
    let bad = hunk(vec![line('+', None, None, "y")]);
    assert!(matches!(Hunk::read_hunks(vec![good, bad]), Err(Error::InvalidLineDiff)));
    assert!(matches!(
        LineDiff::try_from(line(' ', None, None, "z")),
        Err(Error::InvalidLineDiff)
    ));
}
