use radicle_surf::traits::DirectoryI;
use radicle_surf::types::directory::Directory;

fn dir(path: &[&str]) -> Directory {
    Directory { path: path.iter().map(|s| s.to_string()).collect() }
}

#[test]
fn prop_is_prefix_identity() {
    for d in [dir(&[]), dir(&["foo"]), dir(&["foo", "bar"])] {
        assert!(d.is_prefix_of(&d));
    }
}

#[test]
fn directory_prefixes() {
    assert!(dir(&["foo", "bar"]).is_prefix_of(&dir(&["foo", "bar", "baz"])));
    assert!(dir(&[]).is_prefix_of(&dir(&["foo"])));
    assert!(!dir(&["foo", "bar", "baz"]).is_prefix_of(&dir(&["foo", "bar"])));
    assert!(!dir(&["foo", "quux"]).is_prefix_of(&dir(&["foo", "bar", "baz"])));
}
