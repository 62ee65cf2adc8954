use std::convert::TryFrom;

use radicle_git_ext::reference::name::{OneLevel, RefLike};
use radicle_surf::vcs::git::branch::{extract_remote, Error};
use radicle_surf::vcs::git::ext::{is_branch, is_remote, is_tag, remove_namespace};
use radicle_surf::vcs::git::reference::name::StripPrefixError;
use radicle_surf::vcs::git::{Branch, BranchType, Ref, RefGlob};

#[test]
fn tags_are_found_inside_namespaces() {
    assert!(is_tag(Some("refs/tags/v1")));
    assert!(is_tag(Some("refs/namespaces/moi/refs/tags/v1")));
    assert!(!is_tag(Some("refs/heads/master")));
    assert!(!is_tag(Some("tags/v1")));
    assert!(!is_tag(None));
}

#[test]
fn remotes_need_a_slash_after_the_remote() {
    assert!(is_remote(Some("refs/remotes/origin/master")));
    assert!(is_remote(Some("refs/namespaces/moi/refs/remotes/origin/master")));
    assert!(!is_remote(Some("refs/remotes/master")));
    assert!(!is_remote(Some("refs/remotes/origin\n/master")));
    assert!(!is_remote(None));
}

#[test]
fn branches_are_local_or_remote() {
    assert!(is_branch(Some("refs/heads/master")));
    assert!(is_branch(Some("refs/remotes/origin/master")));
    assert!(!is_branch(Some("refs/remotes/master")));
    assert!(!is_branch(Some("refs/tags/v1")));
    assert!(!is_branch(None));
}

#[test]
fn namespaces_are_removed() {
    assert_eq!(
        remove_namespace("refs/namespaces/moi/refs/heads/master"),
        Ok("refs/heads/master".to_string())
    );
    assert_eq!(
        remove_namespace("refs/namespaces/moi/refs/namespaces/toi/refs/tags/v1"),
        Ok("refs/tags/v1".to_string())
    );
    assert_eq!(remove_namespace("refs/heads/master"), Ok("refs/heads/master".to_string()));
    assert_eq!(
        remove_namespace("refs/namespaces/refs/heads/master"),
        Err(StripPrefixError::NotPrefix)
    );
}

#[test]
fn remotes_are_extracted() {
    assert_eq!(
        extract_remote("refs/remotes/origin/master").unwrap(),
        Some(("origin".to_string(), "master".to_string()))
    );
    assert_eq!(
        extract_remote("refs/remotes/origin/heads/master").unwrap(),
        Some(("origin".to_string(), "master".to_string()))
    );
    assert_eq!(
        extract_remote("refs/remotes/origin/feature/x").unwrap(),
        Some(("origin".to_string(), "feature/x".to_string()))
    );
    assert_eq!(extract_remote("refs/heads/master").unwrap(), None);
    assert!(matches!(extract_remote("refs/remotes/origin"), Err(Error::Name(_))));
}

#[test]
fn branches_are_read_from_reference_names() {
    assert_eq!(
        Branch::from_reference("refs/remotes/origin/master", false, false).unwrap(),
        Branch::remote("master", "origin")
    );
    assert_eq!(
        Branch::from_reference("refs/heads/master", false, false).unwrap(),
        Branch::local("master")
    );
    assert_eq!(
        Branch::from_reference("refs/namespaces/moi/refs/heads/dev", false, false).unwrap(),
        Branch::local("dev")
    );
    assert!(matches!(
        Branch::from_reference("refs/tags/v1", true, false),
        Err(Error::NotBranch(name)) if name == "refs/tags/v1"
    ));
    assert!(matches!(
        Branch::from_reference("refs/notes/commits", false, true),
        Err(Error::NotBranch(_))
    ));
    assert!(matches!(
        Branch::from_reference("refs/heads/refs/remotes/a/b", false, false),
        Err(Error::NoRemote(name)) if name == "refs/heads/refs/remotes/a/b"
    ));
    assert!(matches!(Branch::from_reference("refs/heads/a..b", false, false), Err(Error::Name(_))));
    assert!(matches!(
        Branch::from_reference("refs/namespaces/refs/heads/a", false, false),
        Err(Error::Strip(StripPrefixError::NotPrefix))
    ));
}

#[test]
fn branch_names_and_refs() {
    let remote = Branch::remote("master", "origin");
    assert_eq!(remote.name(), "origin/master");
    assert_eq!(remote.locality, BranchType::Remote { name: Some("origin".to_string()) });
    assert_eq!(
        remote.into_ref(),
        Ref::RemoteBranch { remote: "origin".to_string(), name: "master".to_string() }
    );
    let local = Branch::local("refs/heads/master");
    assert_eq!(local.name(), "master");
    assert_eq!(local.clone().into_ref(), Ref::LocalBranch { name: "refs/heads/master".to_string() });
    let unknown = Branch { name: "dev".to_string(), locality: BranchType::Remote { name: None } };
    assert_eq!(unknown.name(), "dev");
}

#[test]
fn branch_names_agree_with_radicle_git_ext() {
    for name in ["master", "refs/heads/master", "refs/remotes/origin/dev"] {
        let expected = String::from(OneLevel::from(RefLike::try_from(name).unwrap()));
        assert_eq!(Branch::local(name).name, expected);
    }
}

#[test]
fn branch_types_select_globs() {
    assert_eq!(RefGlob::from(BranchType::Local), RefGlob::LocalBranch);
    assert_eq!(
        RefGlob::from(BranchType::Remote { name: Some("origin".to_string()) }).to_string(),
        "refs/remotes/origin/*"
    );
    assert_eq!(
        RefGlob::from(BranchType::Remote { name: None }),
        RefGlob::RemoteBranch { remote: None }
    );
}
