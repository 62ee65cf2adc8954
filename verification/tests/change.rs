use radicle_surf::traits::{find_author_commits, get_directory_view, ChangeI, CommitHistoryI};
use radicle_surf::types::change_map::ChangeMap;
use radicle_surf::types::commit::{Change, Commit, Timestamp};
use radicle_surf::types::commit_history::CommitHistory;
use radicle_surf::types::directory::Directory;
use radicle_surf::types::repo::Repo;
use radicle_surf::types::file::{File, FileContents, FileName};

fn file(path: &[&str], name: &str) -> FileName {
    FileName {
        directory: Directory { path: path.iter().map(|s| s.to_string()).collect() },
        name: name.to_string(),
    }
}

fn contents(text: &str) -> FileContents {
    FileContents { contents: text.to_string() }
}

fn commit(hash: &str) -> Commit {
    Commit {
        author: String::from("author"),
        hash: hash.to_string(),
        date: Timestamp { seconds: 61, nanoseconds: 0 },
        message: String::from("commit message"),
        signature: Some(String::from("signature")),
        parent_commits: Vec::new(),
        changes: Vec::new(),
    }
}

fn hashes(map: &ChangeMap<FileName, Commit>, name: &FileName) -> Option<Vec<String>> {
    map.get(name).map(|commits| commits.iter().map(|c| c.hash.clone()).collect())
}

#[test]
fn get_filename_of_each_change() {
    let foo = file(&["src"], "foo.rs");
    let bar = file(&["src", "sub"], "bar.rs");
    assert_eq!(Change::Addition(foo.clone(), contents("a")).get_filename(), foo);
    assert_eq!(Change::Removal(foo.clone(), contents("a")).get_filename(), foo);
    assert_eq!(Change::Create(foo.clone()).get_filename(), foo);
    assert_eq!(Change::Delete(foo.clone()).get_filename(), foo);
    assert_eq!(Change::Move(foo.clone(), bar.clone()).get_filename(), bar);
}

#[test]
fn new_change_map_is_empty() {
    let map: ChangeMap<FileName, Commit> = ChangeMap::new();
    assert!(map.get(&file(&[], "foo")).is_none());
}

#[test]
fn create_then_add_puts_latest_commit_first() {
    let foo = file(&["src"], "foo.rs");
    let mut map = ChangeMap::new();
    Change::Create(foo.clone()).add_change(commit("c1"), &mut map);
    assert_eq!(hashes(&map, &foo), Some(vec![String::from("c1")]));
    Change::Addition(foo.clone(), contents("x")).add_change(commit("c2"), &mut map);
    Change::Removal(foo.clone(), contents("")).add_change(commit("c3"), &mut map);
    assert_eq!(
        hashes(&map, &foo),
        Some(vec![String::from("c3"), String::from("c2"), String::from("c1")])
    );
}

#[test]
fn changes_to_other_files_are_kept_apart() {
    let foo = file(&["src"], "foo.rs");
    let foo_elsewhere = file(&["doc"], "foo.rs");
    let mut map = ChangeMap::new();
    Change::Create(foo.clone()).add_change(commit("c1"), &mut map);
    Change::Create(foo_elsewhere.clone()).add_change(commit("c2"), &mut map);
    assert_eq!(hashes(&map, &foo), Some(vec![String::from("c1")]));
    assert_eq!(hashes(&map, &foo_elsewhere), Some(vec![String::from("c2")]));
}

#[test]
fn delete_removes_the_file() {
    let foo = file(&["src"], "foo.rs");
    let bar = file(&["src"], "bar.rs");
    let mut map = ChangeMap::new();
    Change::Create(foo.clone()).add_change(commit("c1"), &mut map);
    Change::Create(bar.clone()).add_change(commit("c2"), &mut map);
    Change::Delete(foo.clone()).add_change(commit("c3"), &mut map);
    assert!(map.get(&foo).is_none());
    assert_eq!(hashes(&map, &bar), Some(vec![String::from("c2")]));
    // Deleting a file that was never recorded changes nothing.
    Change::Delete(foo.clone()).add_change(commit("c4"), &mut map);
    assert!(map.get(&foo).is_none());
    assert_eq!(hashes(&map, &bar), Some(vec![String::from("c2")]));
}

#[test]
fn move_carries_the_history_to_the_new_name() {
    let foo = file(&["src"], "foo.rs");
    let bar = file(&["lib"], "bar.rs");
    let mut map = ChangeMap::new();
    Change::Create(foo.clone()).add_change(commit("c1"), &mut map);
    Change::Addition(foo.clone(), contents("x")).add_change(commit("c2"), &mut map);
    Change::Move(foo.clone(), bar.clone()).add_change(commit("c3"), &mut map);
    assert!(map.get(&foo).is_none());
    assert_eq!(
        hashes(&map, &bar),
        Some(vec![String::from("c3"), String::from("c2"), String::from("c1")])
    );
}

#[test]
fn move_of_an_unknown_file_starts_or_joins_the_new_name() {
    let foo = file(&["src"], "foo.rs");
    let bar = file(&["lib"], "bar.rs");
    let mut map = ChangeMap::new();
    Change::Move(foo.clone(), bar.clone()).add_change(commit("c1"), &mut map);
    assert!(map.get(&foo).is_none());
    assert_eq!(hashes(&map, &bar), Some(vec![String::from("c1")]));
    Change::Move(foo.clone(), bar.clone()).add_change(commit("c2"), &mut map);
    assert_eq!(hashes(&map, &bar), Some(vec![String::from("c2"), String::from("c1")]));
}

#[test]
fn move_onto_an_existing_file_replaces_its_history() {
    let foo = file(&["src"], "foo.rs");
    let bar = file(&["lib"], "bar.rs");
    let mut map = ChangeMap::new();
    Change::Create(foo.clone()).add_change(commit("c1"), &mut map);
    Change::Create(bar.clone()).add_change(commit("c2"), &mut map);
    Change::Move(foo.clone(), bar.clone()).add_change(commit("c3"), &mut map);
    assert!(map.get(&foo).is_none());
    assert_eq!(hashes(&map, &bar), Some(vec![String::from("c3"), String::from("c1")]));
}

#[test]
fn move_onto_itself_keeps_the_history() {
    let foo = file(&["src"], "foo.rs");
    let mut map = ChangeMap::new();
    Change::Create(foo.clone()).add_change(commit("c1"), &mut map);
    Change::Move(foo.clone(), foo.clone()).add_change(commit("c2"), &mut map);
    assert_eq!(hashes(&map, &foo), Some(vec![String::from("c2"), String::from("c1")]));
}

#[test]
fn empty_file_contents_has_no_text() {
    assert_eq!(FileContents::empty_file_contents(), contents(""));
}

#[test]
fn apply_file_change_takes_the_text_of_additions_and_removals() {
    let foo = file(&["src"], "foo.rs");
    let mut c = contents("old");
    c.apply_file_change(Change::Addition(foo.clone(), contents("added")));
    assert_eq!(c, contents("added"));
    c.apply_file_change(Change::Removal(foo.clone(), contents("less")));
    assert_eq!(c, contents("less"));
    c.apply_file_change(Change::Create(foo.clone()));
    c.apply_file_change(Change::Move(foo.clone(), file(&[], "bar.rs")));
    assert_eq!(c, contents("less"));
}

#[test]
fn apply_file_change_of_a_deletion_empties_the_contents() {
    let mut c = contents("some text");
    c.apply_file_change(Change::Delete(file(&["src"], "foo.rs")));
    assert_eq!(c, FileContents::empty_file_contents());
}

#[test]
fn build_contents_follows_the_changes_of_the_file() {
    // Commits newest first, as the change map lists them: the oldest
    // change is applied first.
    let foo = file(&["src"], "foo.rs");
    let bar = file(&["src"], "bar.rs");
    let mut c1 = commit("c1");
    c1.changes = vec![
        Change::Create(foo.clone()),
        Change::Addition(foo.clone(), contents("one")),
        Change::Addition(bar.clone(), contents("other file")),
    ];
    let mut c2 = commit("c2");
    c2.changes = vec![Change::Removal(foo.clone(), contents("two"))];
    let mut c3 = commit("c3");
    c3.changes = vec![Change::Addition(bar.clone(), contents("bar again"))];
    let commits = vec![c3, c2, c1];
    assert_eq!(File::build_contents(&foo, &commits), contents("two"));
    assert_eq!(File::build_contents(&bar, &commits), contents("bar again"));
    assert_eq!(File::build_contents(&file(&[], "none"), &commits), contents(""));
    assert_eq!(File::build_contents(&foo, &[]), contents(""));
}

#[test]
fn build_contents_applies_the_last_change_first() {
    let foo = file(&["src"], "foo.rs");
    let mut c1 = commit("c1");
    c1.changes = vec![
        Change::Addition(foo.clone(), contents("first")),
        Change::Addition(foo.clone(), contents("second")),
    ];
    assert_eq!(File::build_contents(&foo, &[c1]), contents("first"));
}

#[test]
fn build_contents_after_a_deletion_is_empty() {
    let foo = file(&["src"], "foo.rs");
    let mut c1 = commit("c1");
    c1.changes = vec![Change::Addition(foo.clone(), contents("text"))];
    let mut c2 = commit("c2");
    c2.changes = vec![Change::Delete(foo.clone())];
    assert_eq!(File::build_contents(&foo, &[c2, c1]), contents(""));
}

#[test]
fn build_contents_sees_a_moved_file_under_its_new_name() {
    let foo = file(&["src"], "foo.rs");
    let bar = file(&["lib"], "bar.rs");
    let mut c1 = commit("c1");
    c1.changes = vec![Change::Addition(foo.clone(), contents("text"))];
    let mut c2 = commit("c2");
    c2.changes = vec![Change::Move(foo.clone(), bar.clone())];
    let commits = vec![c2, c1];
    assert_eq!(File::build_contents(&foo, &commits), contents("text"));
    assert_eq!(File::build_contents(&bar, &commits), contents(""));
}

#[test]
fn file_directory_is_the_directory_of_its_name() {
    let foo = file(&["foo", "bar"], "test_filename");
    let f = File { name: foo, commits: Vec::new(), contents: contents("new contents") };
    assert_eq!(
        f.directory(),
        Directory { path: vec![String::from("foo"), String::from("bar")] }
    );
}

#[test]
fn commit_history_keeps_commits_in_order() {
    let mut history = CommitHistory::new();
    assert!(history.commits.is_empty());
    history.add_commit(commit("c1"));
    history.add_commit(commit("c2"));
    let hashes: Vec<String> = history.commits.iter().map(|c| c.hash.clone()).collect();
    assert_eq!(hashes, vec![String::from("c1"), String::from("c2")]);
}

#[test]
fn author_and_signature_of_a_commit() {
    let mut c = commit("c1");
    assert_eq!(c.author(), String::from("author"));
    c.sign_commit(String::from("key"));
    assert_eq!(c.signature, Some(String::from("key")));
    assert_eq!(c.hash, String::from("c1"));
    assert_eq!(c.message, String::from("commit message"));
}

#[test]
fn directory_view_keeps_the_files_below_the_directory() {
    let files = vec![
        File { name: file(&["foo", "bar"], "a"), commits: Vec::new(), contents: contents("a") },
        File { name: file(&["foo"], "b"), commits: Vec::new(), contents: contents("b") },
        File { name: file(&["baz"], "c"), commits: Vec::new(), contents: contents("c") },
        File { name: file(&["foo", "bar", "quux"], "d"), commits: Vec::new(), contents: contents("d") },
    ];
    let foo_bar = Directory { path: vec![String::from("foo"), String::from("bar")] };
    let names: Vec<String> =
        get_directory_view(&foo_bar, files).into_iter().map(|f| f.name.name).collect();
    assert_eq!(names, vec![String::from("a"), String::from("d")]);
    let root = Directory { path: Vec::new() };
    assert!(get_directory_view(&root, Vec::new()).is_empty());
}

#[test]
fn author_commits_are_those_of_the_author() {
    let mut c1 = commit("c1");
    c1.author = String::from("alice");
    let mut c2 = commit("c2");
    c2.author = String::from("bob");
    let mut c3 = commit("c3");
    c3.author = String::from("alice");
    let hashes: Vec<String> = find_author_commits(vec![c1, c2, c3], String::from("alice"))
        .into_iter()
        .map(|c| c.hash)
        .collect();
    assert_eq!(hashes, vec![String::from("c1"), String::from("c3")]);
}

#[test]
fn prop_new_repo_has_empty_history() {
    assert!(Repo::new().get_commit_histories().is_empty());
}

#[test]
fn get_commit_finds_the_first_commit_of_the_hash() {
    let mut repo = Repo::new();
    let mut first = CommitHistory::new();
    let mut c1 = commit("c1");
    c1.message = String::from("first c1");
    first.add_commit(c1);
    first.add_commit(commit("c2"));
    let mut second = CommitHistory::new();
    let mut c1_again = commit("c1");
    c1_again.message = String::from("second c1");
    second.add_commit(commit("c3"));
    second.add_commit(c1_again);
    repo.add_commit_history(first);
    repo.add_commit_history(second);
    assert_eq!(repo.get_commit_histories().len(), 2);
    assert_eq!(repo.get_commit(&String::from("c1")).map(|c| c.message.clone()), Some(String::from("first c1")));
    assert_eq!(repo.get_commit(&String::from("c3")).map(|c| c.hash.clone()), Some(String::from("c3")));
    assert!(repo.get_commit(&String::from("c9")).is_none());
}
