use radicle_surf::diff::{CreateFile, DeleteFile, Diff, FileDiff, ModifiedFile};
use radicle_surf::file_system::directory::{Directory, File};
use radicle_surf::file_system::{unsound, Path};

#[test]
fn test_create_file() {
    let directory = Directory::root();

    let mut new_directory = Directory::root();
    new_directory.insert_file(&unsound::path::new("banana.rs"), File::new(b"use banana"));

    let diff = Diff::diff(directory, new_directory).expect("diff failed");

    let expected_diff = Diff {
        created: vec![CreateFile(Path::with_root(&[unsound::label::new(
            "banana.rs",
        )]))],
        deleted: vec![],
        moved: vec![],
        modified: vec![],
    };

    assert_eq!(diff, expected_diff)
}

#[test]
fn test_delete_file() {
    let mut directory = Directory::root();
    directory.insert_file(&unsound::path::new("banana.rs"), File::new(b"use banana"));

    let new_directory = Directory::root();

    let diff = Diff::diff(directory, new_directory).expect("diff failed");

    let expected_diff = Diff {
        created: vec![],
        deleted: vec![DeleteFile(Path::with_root(&[unsound::label::new(
            "banana.rs",
        )]))],
        moved: vec![],
        modified: vec![],
    };

    assert_eq!(diff, expected_diff)
}

#[test]
fn test_moved_file() {
    let mut directory = Directory::root();
    directory.insert_file(&unsound::path::new("mod.rs"), File::new(b"use banana"));

    let mut new_directory = Directory::root();
    new_directory.insert_file(&unsound::path::new("banana.rs"), File::new(b"use banana"));

    let _diff = Diff::diff(directory, new_directory).expect("diff failed");

    // Moves are not detected yet.
    assert!(true)
}

#[test]
fn test_modify_file() {
    let mut directory = Directory::root();
    directory.insert_file(&unsound::path::new("banana.rs"), File::new(b"use banana"));

    let mut new_directory = Directory::root();
    new_directory.insert_file(&unsound::path::new("banana.rs"), File::new(b"use banana;"));

    let diff = Diff::diff(directory, new_directory).expect("diff failed");

    let expected_diff = Diff {
        created: vec![],
        deleted: vec![],
        moved: vec![],
        modified: vec![ModifiedFile {
            path: Path::with_root(&[unsound::label::new("banana.rs")]),
            diff: FileDiff {},
        }],
    };

    assert_eq!(diff, expected_diff)
}

#[test]
fn test_create_directory() {
    let directory = Directory::root();

    let mut new_directory = Directory::root();
    new_directory.insert_file(
        &unsound::path::new("src/banana.rs"),
        File::new(b"use banana"),
    );

    let diff = Diff::diff(directory, new_directory).expect("diff failed");

    let expected_diff = Diff {
        created: vec![CreateFile(Path::with_root(&[
            unsound::label::new("src"),
            unsound::label::new("banana.rs"),
        ]))],
        deleted: vec![],
        moved: vec![],
        modified: vec![],
    };

    assert_eq!(diff, expected_diff)
}

#[test]
fn test_delete_directory() {
    let mut directory = Directory::root();
    directory.insert_file(
        &unsound::path::new("src/banana.rs"),
        File::new(b"use banana"),
    );

    let new_directory = Directory::root();

    let diff = Diff::diff(directory, new_directory).expect("diff failed");

    let expected_diff = Diff {
        created: vec![],
        deleted: vec![DeleteFile(Path::with_root(&[
            unsound::label::new("src"),
            unsound::label::new("banana.rs"),
        ]))],
        moved: vec![],
        modified: vec![],
    };

    assert_eq!(diff, expected_diff)
}

#[test]
fn test_modify_file_directory() {
    let mut directory = Directory::root();
    directory.insert_file(
        &unsound::path::new("src/banana.rs"),
        File::new(b"use banana"),
    );

    let mut new_directory = Directory::root();
    new_directory.insert_file(
        &unsound::path::new("src/banana.rs"),
        File::new(b"use banana;"),
    );

    let diff = Diff::diff(directory, new_directory).expect("diff failed");

    let expected_diff = Diff {
        created: vec![],
        deleted: vec![],
        moved: vec![],
        modified: vec![ModifiedFile {
            path: Path::with_root(&[
                unsound::label::new("src"),
                unsound::label::new("banana.rs"),
            ]),
            diff: FileDiff {},
        }],
    };

    assert_eq!(diff, expected_diff)
}

#[test]
fn test_disjoint_directories() {
    let mut directory = Directory::root();
    directory.insert_file(
        &unsound::path::new("foo/src/banana.rs"),
        File::new(b"use banana"),
    );

    let mut other_directory = Directory::root();
    other_directory.insert_file(
        &unsound::path::new("bar/src/pineapple.rs"),
        File::new(b"use pineapple"),
    );

    let _diff = Diff::diff(directory, other_directory).expect("diff failed");

    assert!(true)
}

#[test]
fn disjoint_directories_are_created_and_deleted_under_the_root() {
    let mut directory = Directory::root();
    directory.insert_file(&unsound::path::new("foo/src/banana.rs"), File::new(b"use banana"));

    let mut other_directory = Directory::root();
    other_directory.insert_file(&unsound::path::new("bar/src/pineapple.rs"), File::new(b"use pineapple"));

    let diff = Diff::diff(directory, other_directory).expect("diff failed");
    assert_eq!(
        diff,
        Diff {
            created: vec![CreateFile(unsound::path::new("~/bar/src/pineapple.rs"))],
            deleted: vec![DeleteFile(unsound::path::new("~/foo/src/banana.rs"))],
            moved: vec![],
            modified: vec![],
        }
    );
}

#[test]
fn file_against_directory_of_the_same_name() {
    let mut old = Directory::root();
    old.insert_file(&unsound::path::new("a/x.rs"), File::new(b"x"));
    old.insert_file(&unsound::path::new("b"), File::new(b"b"));
    old.insert_file(&unsound::path::new("c.rs"), File::new(b"same"));

    let mut new = Directory::root();
    new.insert_file(&unsound::path::new("a"), File::new(b"a"));
    new.insert_file(&unsound::path::new("b/y.rs"), File::new(b"y"));
    new.insert_file(&unsound::path::new("c.rs"), File::new(b"same"));

    let diff = Diff::diff(old, new).expect("diff failed");
    assert_eq!(
        diff,
        Diff {
            created: vec![
                CreateFile(unsound::path::new("~/a")),
                CreateFile(unsound::path::new("~/b/y.rs")),
            ],
            deleted: vec![
                DeleteFile(unsound::path::new("~/a/x.rs")),
                DeleteFile(unsound::path::new("~/b")),
            ],
            moved: vec![],
            modified: vec![],
        }
    );
}

#[test]
fn identical_directories_have_no_difference() {
    let mut old = Directory::root();
    old.insert_file(&unsound::path::new("src/lib.rs"), File::new(b"lib"));
    old.insert_file(&unsound::path::new("README.md"), File::new(b"readme"));
    let new = old.clone();
    let diff = Diff::diff(old, new).expect("diff failed");
    assert_eq!(
        diff,
        Diff { created: vec![], deleted: vec![], moved: vec![], modified: vec![] }
    );
}

#[test]
fn paths_start_with_the_label_of_the_new_directory() {
    let mut old = Directory::root();
    old.insert_file(&unsound::path::new("src/a.rs"), File::new(b"1"));
    let mut new = Directory::root();
    new.insert_file(&unsound::path::new("src/a.rs"), File::new(b"2"));
    new.insert_file(&unsound::path::new("src/b.rs"), File::new(b"3"));
    let old_src = old.find_directory(&unsound::path::new("src")).expect("src");
    let new_src = new.find_directory(&unsound::path::new("src")).expect("src");
    let diff = Diff::diff(old_src, new_src).expect("diff failed");
    assert_eq!(
        diff,
        Diff {
            created: vec![CreateFile(unsound::path::new("src/b.rs"))],
            deleted: vec![],
            moved: vec![],
            modified: vec![ModifiedFile { path: unsound::path::new("src/a.rs"), diff: FileDiff {} }],
        }
    );
}
