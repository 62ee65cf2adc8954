use radicle_surf::file_system::directory::groups::{entry_directory, group_by_directory};
use radicle_surf::file_system::directory::{Directory, File, SystemType};
use radicle_surf::file_system::{unsound, Label, Path};
use radicle_surf::nonempty::NonEmpty;
use std::collections::HashMap;

#[test]
fn test_find_added_file() {
    let file = File::new(b"module Banana ...");

    let mut directory = Directory::root();
    directory.insert_file(&unsound::path::new("foo.hs"), file.clone());

    // Search for "~/foo.hs"
    assert_eq!(
        directory.find_file(&unsound::path::new("foo.hs")),
        Some(file)
    )
}

#[test]
fn test_find_added_file_long_path() {
    let file_path = unsound::path::new("foo/bar/baz.rs");

    let file = File::new(b"module Banana ...");

    let mut directory = Directory::root();
    directory.insert_file(&unsound::path::new("foo/bar/baz.rs"), file.clone());

    // Search for "~/foo/bar/baz.hs"
    assert_eq!(directory.find_file(&file_path), Some(file))
}

#[test]
fn test_404_file_not_found() {
    let file_path = unsound::path::new("bar.hs");

    let file = File::new(b"module Banana ...");

    let mut directory = Directory::root();
    directory.insert_file(&unsound::path::new("foo.hs"), file);

    // Search for "~/bar.hs"
    assert_eq!(directory.find_file(&file_path), None)
}

#[test]
fn test_list_directory() {
    let mut directory = Directory::root();
    directory.insert_file(
        &unsound::path::new("foo.hs"),
        File::new(b"module BananaFoo ..."),
    );
    directory.insert_file(
        &unsound::path::new("bar.hs"),
        File::new(b"module BananaBar ..."),
    );
    directory.insert_file(
        &unsound::path::new("baz.hs"),
        File::new(b"module BananaBaz ..."),
    );

    assert_eq!(
        directory.list_directory(),
        vec![
            SystemType::file(unsound::label::new("bar.hs")),
            SystemType::file(unsound::label::new("baz.hs")),
            SystemType::file(unsound::label::new("foo.hs")),
        ]
    );
}

#[test]
fn test_create_and_list() {
    let mut directory = Directory::root();

    // Root files set up
    let root_files = NonEmpty::from((
        (unsound::label::new("foo.rs"), File::new(b"use crate::bar")),
        vec![(
            unsound::label::new("bar.rs"),
            File::new(b"fn hello_world()"),
        )],
    ));
    directory.insert_files(&[], root_files);

    // Haskell files set up
    let haskell_files = NonEmpty::from((
        (
            unsound::label::new("foo.hs"),
            File::new(b"module Foo where"),
        ),
        vec![(
            unsound::label::new("bar.hs"),
            File::new(b"module Bar where"),
        )],
    ));

    directory.insert_files(&[unsound::label::new("haskell")], haskell_files);

    let mut directory_contents = directory.list_directory();
    directory_contents.sort();

    assert_eq!(
        directory_contents,
        vec![
            SystemType::file(unsound::label::new("bar.rs")),
            SystemType::file(unsound::label::new("foo.rs")),
            SystemType::directory(unsound::label::new("haskell")),
        ]
    );

    let sub_directory = directory
        .find_directory(&unsound::path::new("haskell"))
        .expect("Could not find sub-directory");
    let mut sub_directory_contents = sub_directory.list_directory();
    sub_directory_contents.sort();

    assert_eq!(
        sub_directory_contents,
        vec![
            SystemType::file(unsound::label::new("bar.hs")),
            SystemType::file(unsound::label::new("foo.hs")),
        ]
    );
}

fn prop_all_directories_and_files(directory_map: HashMap<Path, NonEmpty<(Label, File)>>) -> bool {
    let mut new_directory_map = HashMap::new();
    for (path, files) in directory_map {
        new_directory_map.insert(path.clone(), files);
    }

    let directory = Directory::from_hash_map(new_directory_map.clone());

    for (directory_path, files) in new_directory_map {
        for (file_name, _) in std::iter::once(&files.head).chain(files.tail.iter()) {
            let mut path = directory_path.clone();
            if directory.find_directory(&path).is_none() {
                return false;
            }

            path.push(file_name.clone());
            if directory.find_file(&path).is_none() {
                return false;
            }
        }
    }
    true
}

#[test]
fn test_all_directories_and_files() {
    let mut directory_map = HashMap::new();

    let path1 = unsound::path::new("foo/bar/baz");
    let file1 = (unsound::label::new("monadic.rs"), File::new(&[]));
    let file2 = (unsound::label::new("oscoin.rs"), File::new(&[]));
    directory_map.insert(path1, NonEmpty::from((file1, vec![file2])));

    let path2 = unsound::path::new("foor/bar/quuz");
    let file3 = (unsound::label::new("radicle.rs"), File::new(&[]));

    directory_map.insert(path2, NonEmpty::new(file3));

    assert!(prop_all_directories_and_files(directory_map))
}

#[test]
fn test_file_name_is_same_as_root() {
    // This test ensures that if the name is the same the root of the
    // directory, that search_path.split_last() doesn't toss away the prefix.
    let path = unsound::path::new("foo/bar/~");
    let mut directory_map = HashMap::new();
    directory_map.insert(path, NonEmpty::new((Label::root(), File::new(b"root"))));

    assert!(prop_all_directories_and_files(directory_map));
}

#[test]
fn file_size_and_checksum() {
    let file = File::new(b"pub mod diff;\npub mod file_system;\npub mod vcs;\npub use crate::vcs::git;\n");
    assert_eq!(file.size(), 73);
    let same = File::new(b"pub mod diff;\npub mod file_system;\npub mod vcs;\npub use crate::vcs::git;\n");
    assert_eq!(file.checksum(), same.checksum());
    let other = File::new(b"pub mod diff;");
    assert_ne!(file.checksum(), other.checksum());
}

#[test]
fn directory_sizes() {
    let mut root = Directory::root();
    root.insert_files(
        &[],
        NonEmpty::from((
            (
                unsound::label::new("main.rs"),
                File::new(b"println!(\"Hello, world!\")"),
            ),
            vec![(
                unsound::label::new("lib.rs"),
                File::new(b"struct Hello(String)"),
            )],
        )),
    );
    assert_eq!(root.size(), 45);

    let mut root = Directory::root();
    root.insert_file(&unsound::path::new("main.rs"), File::new(b"println!(\"Hello, world!\")"));
    root.insert_file(&unsound::path::new("lib.rs"), File::new(b"struct Hello(String)"));
    root.insert_file(&unsound::path::new("test/mod.rs"), File::new(b"assert_eq!(1 + 1, 2);"));
    assert_eq!(root.size(), 66);
}

#[test]
fn directory_current_labels() {
    let mut root = Directory::root();
    root.insert_file(&unsound::path::new("main.rs"), File::new(b"println!(\"Hello, world!\")"));
    root.insert_file(&unsound::path::new("lib.rs"), File::new(b"struct Hello(String)"));
    root.insert_file(&unsound::path::new("test/mod.rs"), File::new(b"assert_eq!(1 + 1, 2);"));

    assert_eq!(root.current(), Label::root());

    let test = root
        .find_directory(&unsound::path::new("test"))
        .expect("Missing test directory");
    assert_eq!(test.current(), unsound::label::new("test"));
}

#[test]
fn file_replaces_directory_and_directory_replaces_file() {
    let mut root = Directory::root();
    root.insert_file(&unsound::path::new("a/b.rs"), File::new(b"b"));
    root.insert_file(&unsound::path::new("a"), File::new(b"a"));
    assert!(root.find_directory(&unsound::path::new("a")).is_none());
    assert_eq!(root.find_file(&unsound::path::new("a")), Some(File::new(b"a")));
    assert_eq!(root.find_file(&unsound::path::new("a/b.rs")), None);

    root.insert_file(&unsound::path::new("a/c.rs"), File::new(b"c"));
    assert_eq!(root.find_file(&unsound::path::new("a")), None);
    assert_eq!(root.find_file(&unsound::path::new("a/c.rs")), Some(File::new(b"c")));
    assert_eq!(
        root.list_directory(),
        vec![SystemType::directory(unsound::label::new("a"))]
    );
}

#[test]
fn find_directory_of_a_file_or_nothing() {
    let mut root = Directory::root();
    root.insert_file(&unsound::path::new("src/lib.rs"), File::new(b"lib"));
    assert!(root.find_directory(&unsound::path::new("src/lib.rs")).is_none());
    assert!(root.find_directory(&unsound::path::new("docs")).is_none());
    let src = root.find_directory(&unsound::path::new("src")).expect("src");
    assert_eq!(src.find_file(&unsound::path::new("lib.rs")), Some(File::new(b"lib")));
    assert_eq!(src.size(), 3);
}

#[test]
fn cloned_directory_holds_the_same_files() {
    let mut root = Directory::root();
    root.insert_file(&unsound::path::new("x/y/z.txt"), File::new(b"zzz"));
    let copy = root.clone();
    assert_eq!(copy.find_file(&unsound::path::new("x/y/z.txt")), Some(File::new(b"zzz")));
    assert_eq!(copy.list_directory(), root.list_directory());
}

#[test]
fn from_entries_puts_root_groups_at_the_top() {
    let directory = Directory::from_entries(vec![
        (Path::root(), NonEmpty::new((unsound::label::new("top.rs"), File::new(b"t")))),
        (
            unsound::path::new("deep/er"),
            NonEmpty::new((unsound::label::new("low.rs"), File::new(b"l"))),
        ),
    ]);
    assert_eq!(directory.find_file(&unsound::path::new("top.rs")), Some(File::new(b"t")));
    assert_eq!(directory.find_file(&unsound::path::new("deep/er/low.rs")), Some(File::new(b"l")));
}

#[test]
fn group_by_directory_keeps_first_order_and_file_order() {
    let foo = unsound::path::new("foo");
    let bar = unsound::path::new("foo/bar");
    let entries = vec![
        (foo.clone(), unsound::label::new("a.rs"), File::new(b"a")),
        (bar.clone(), unsound::label::new("b.rs"), File::new(b"b")),
        (foo.clone(), unsound::label::new("c.rs"), File::new(b"c")),
        (Path::root(), unsound::label::new("d.rs"), File::new(b"d")),
    ];
    let groups = group_by_directory(entries);
    assert_eq!(groups.len(), 3);
    assert_eq!(groups[0].0, foo);
    assert_eq!(
        groups[0].1,
        NonEmpty::from((
            (unsound::label::new("a.rs"), File::new(b"a")),
            vec![(unsound::label::new("c.rs"), File::new(b"c"))]
        ))
    );
    assert_eq!(groups[1].0, bar);
    assert_eq!(groups[1].1, NonEmpty::new((unsound::label::new("b.rs"), File::new(b"b"))));
    assert_eq!(groups[2].0, Path::root());

    let directory = Directory::from_entries(groups);
    assert_eq!(directory.find_file(&unsound::path::new("foo/a.rs")), Some(File::new(b"a")));
    assert_eq!(directory.find_file(&unsound::path::new("foo/c.rs")), Some(File::new(b"c")));
    assert_eq!(directory.find_file(&unsound::path::new("foo/bar/b.rs")), Some(File::new(b"b")));
    assert_eq!(directory.find_file(&unsound::path::new("d.rs")), Some(File::new(b"d")));
}

#[test]
fn group_by_directory_of_nothing_is_empty() {
    assert!(group_by_directory(Vec::new()).is_empty());
}

#[test]
fn entry_directory_of_the_walk() {
    assert_eq!(entry_directory(""), Ok(Path::root()));
    assert_eq!(entry_directory("foo/bar/"), Ok(unsound::path::new("foo/bar")));
    assert!(entry_directory("foo//bar").is_err());
}
