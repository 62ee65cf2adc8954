use radicle_surf::vcs::git::{Namespace, RefGlob, Stats};

#[test]
fn namespace_reads_and_writes_nested_names() {
    let ns = Namespace::new("foo/bar");
    assert_eq!(ns.to_string(), "foo/bar");
    assert_eq!(Namespace::new("moi").to_string(), "moi");
    assert_eq!(Namespace::new("a//b/").to_string(), "a//b/");
    assert_eq!(Namespace::new(""), Namespace::new(""));
    assert_ne!(Namespace::new("a/b"), Namespace::new("a"));
}

#[test]
fn ref_glob_texts() {
    assert_eq!(RefGlob::Tag.to_string(), "refs/tags/*");
    assert_eq!(RefGlob::LocalBranch.to_string(), "refs/heads/*");
    assert_eq!(RefGlob::RemoteBranch { remote: None }.to_string(), "refs/remotes/**/*");
    assert_eq!(
        RefGlob::RemoteBranch { remote: Some(String::from("origin")) }.to_string(),
        "refs/remotes/origin/*"
    );
    assert_eq!(RefGlob::Namespace.to_string(), "refs/namespaces/**");
}

#[test]
fn ref_globs_inside_namespaces() {
    assert_eq!(
        RefGlob::Tag.with_namespace_glob(Namespace::new("moi/toi")),
        vec![String::from("refs/namespaces/moi/refs/namespaces/toi/refs/tags/*")]
    );
    assert_eq!(
        RefGlob::Branch.with_namespace_glob(Namespace::new("moi")),
        vec![
            String::from("refs/namespaces/moi/refs/remotes/**/*"),
            String::from("refs/namespaces/moi/refs/heads/*"),
        ]
    );
}

#[test]
fn ref_globs_in_the_browsed_namespace() {
    assert_eq!(
        RefGlob::Tag.globs_in(Some(Namespace::new("moi"))),
        vec![String::from("refs/namespaces/moi/refs/tags/*")]
    );
    assert_eq!(RefGlob::Tag.globs_in(None), vec![String::from("refs/tags/*")]);
    assert_eq!(
        RefGlob::Branch.globs_in(None),
        vec![String::from("refs/remotes/**/*"), String::from("refs/heads/*")]
    );
}

#[test]
fn stats_hold_their_counts() {
    let stats = Stats { commits: 3, branches: 2, contributors: 1 };
    assert_eq!(stats.commits + stats.branches + stats.contributors, 6);
}

#[test]
fn a_written_namespace_reads_back() {
    let ns = Namespace::new("moi/toi/soi");
    assert_eq!(Namespace::new(ns.to_string().as_str()), ns);
}

#[test]
fn namespaces_of_reference_names() {
    assert_eq!(
        Namespace::from_reference_name("refs/namespaces/moi/refs/namespaces/toi/refs/heads/x"),
        Namespace::new("moi/toi")
    );
    assert_eq!(
        Namespace::from_reference_name("refs/namespaces/moi/refs/heads/x").to_string(),
        "moi"
    );
    assert_eq!(Namespace::from_reference_name("refs/heads/master").to_string(), "");
    assert_eq!(Namespace::from_reference_name("refs/heads/master"), Namespace::from_reference_name("refs/namespaces/a"));
    assert_eq!(
        Namespace::from_reference_name("refs/namespaces//refs/heads/x"),
        Namespace::from_reference_name("")
    );
    assert_eq!(
        Namespace::from_reference_name("xrefs/namespaces/a/b"),
        Namespace::new("a")
    );
}
