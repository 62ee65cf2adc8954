use std::convert::TryFrom;
use std::str::FromStr;

use radicle_git_ext::reference::name::{OneLevel, Qualified, RefLike};
use radicle_surf::vcs::git::reference::name::{one_level, qualified, strip_prefix, StripPrefixError};
use radicle_surf::vcs::git::{Namespace, ParseError, Ref, Rev};

fn reflike(name: &str) -> RefLike {
    RefLike::try_from(name).unwrap()
}

fn remote_branch(remote: &str, name: &str) -> Ref {
    Ref::RemoteBranch {
        remote: String::from(reflike(remote)),
        name: String::from(OneLevel::from(reflike(name))),
    }
}

#[test]
fn parse_ref() -> Result<(), ParseError> {
    assert_eq!(
        Ref::from_str("refs/remotes/origin/master").unwrap(),
        remote_branch("origin", "master")
    );

    assert_eq!(
        Ref::from_str("refs/heads/master").unwrap(),
        Ref::LocalBranch {
            name: String::from(Qualified::from(reflike("master"))),
        }
    );

    assert_eq!(
        Ref::from_str("refs/heads/xla/handle-disconnect").unwrap(),
        Ref::LocalBranch {
            name: String::from(Qualified::from(reflike("xla/handle-disconnect"))),
        }
    );

    assert_eq!(
        Ref::from_str("refs/tags/v0.0.1").unwrap(),
        Ref::Tag {
            name: String::from(OneLevel::from(reflike("v0.0.1"))),
        }
    );

    assert_eq!(
        Ref::from_str("refs/namespaces/moi/refs/remotes/origin/master").unwrap(),
        Ref::Namespace {
            namespace: "moi".to_string(),
            reference: Box::new(remote_branch("origin", "master")),
        }
    );

    assert_eq!(
        Ref::from_str("refs/namespaces/moi/refs/namespaces/toi/refs/tags/v1.0.0").unwrap(),
        Ref::Namespace {
            namespace: "moi".to_string(),
            reference: Box::new(Ref::Namespace {
                namespace: "toi".to_string(),
                reference: Box::new(Ref::Tag {
                    name: String::from(OneLevel::from(reflike("v1.0.0"))),
                }),
            }),
        }
    );

    assert!(Ref::from_str("refs/remotes/master").is_err());

    assert!(Ref::from_str("refs/namespaces/refs/remotes/origin/master").is_err(),);

    Ok(())
}

#[test]
fn parse_ref_errors() {
    assert!(matches!(
        Ref::from_str("refs/remotes/master"),
        Err(ParseError::MissingRemote(name)) if name == "refs/remotes/master"
    ));
    assert!(matches!(
        Ref::from_str("refs/namespaces/refs/remotes/origin/master"),
        Err(ParseError::StripPrefix(StripPrefixError::NotPrefix))
    ));
    assert!(matches!(
        Ref::from_str("master"),
        Err(ParseError::MalformedRef(name)) if name == "master"
    ));
    assert!(matches!(Ref::from_str("refs/heads/a..b"), Err(ParseError::Name(_))));
    assert!(matches!(Ref::from_str("refs/heads/master.lock"), Err(ParseError::Name(_))));
    assert!(matches!(Ref::from_str(""), Err(ParseError::Name(_))));
}

#[test]
fn remote_branch_splits_at_last_slash() {
    assert_eq!(
        Ref::from_str("refs/remotes/origin/feature/x").unwrap(),
        Ref::RemoteBranch {
            remote: "origin/feature".to_string(),
            name: "x".to_string()
        }
    );
}

#[test]
fn ref_text_round_trips() {
    for text in [
        "refs/heads/master",
        "refs/heads/xla/handle-disconnect",
        "refs/tags/v0.0.1",
        "refs/remotes/origin/master",
        "refs/namespaces/moi/refs/remotes/origin/master",
        "refs/namespaces/moi/refs/namespaces/toi/refs/tags/v1.0.0",
    ] {
        let parsed = Ref::from_str(text).unwrap();
        assert_eq!(parsed.to_string(), text);
        assert_eq!(Ref::from_str(&parsed.to_string()).unwrap(), parsed);
    }
}

#[test]
fn ref_texts() {
    assert_eq!(
        Ref::Tag { name: "v1".to_string() }.to_string(),
        "refs/tags/v1"
    );
    assert_eq!(
        Ref::LocalBranch { name: "refs/heads/dev".to_string() }.to_string(),
        "refs/heads/dev"
    );
    assert_eq!(remote_branch("origin", "dev").to_string(), "refs/remotes/origin/dev");
}

#[test]
fn namespaced_wraps_outermost_first() {
    let r = Ref::Tag { name: "v1".to_string() }.namespaced(Namespace::new("moi/toi"));
    assert_eq!(
        r,
        Ref::Namespace {
            namespace: "moi".to_string(),
            reference: Box::new(Ref::Namespace {
                namespace: "toi".to_string(),
                reference: Box::new(Ref::Tag { name: "v1".to_string() }),
            }),
        }
    );
    assert_eq!(r.to_string(), "refs/namespaces/moi/refs/namespaces/toi/refs/tags/v1");
    let r2 = r.clone();
    assert_eq!(r2, r);
}

#[test]
fn name_forms_agree_with_radicle_git_ext() {
    for name in [
        "refs/heads/next",
        "refs/remotes/origin/it",
        "mistress",
        "refs/tags/grace",
        "refs/HEAD",
        "laplace",
        "refs/heads/pu",
    ] {
        assert_eq!(one_level(name), String::from(OneLevel::from(reflike(name))));
        assert_eq!(qualified(name), String::from(Qualified::from(reflike(name))));
    }
    assert_eq!(one_level("refs/heads/next"), "next");
    assert_eq!(one_level("refs/remotes/origin/it"), "origin/it");
    assert_eq!(qualified("laplace"), "refs/heads/laplace");
}

#[test]
fn strip_prefix_forms() {
    assert_eq!(strip_prefix("refs/heads/next", "refs/heads"), Ok("next".to_string()));
    assert_eq!(strip_prefix("refs/heads/next", "refs/heads/"), Ok("next".to_string()));
    assert_eq!(strip_prefix("refs/heads", "refs/heads/"), Err(StripPrefixError::NotPrefix));
    assert_eq!(strip_prefix("refs/heads/", "refs/heads"), Err(StripPrefixError::ImproperPrefix));
    assert_eq!(strip_prefix("refs/tags/x", "refs/heads"), Err(StripPrefixError::NotPrefix));
    let ext = reflike("refs/heads/next").strip_prefix("refs/heads").unwrap();
    assert_eq!(strip_prefix("refs/heads/next", "refs/heads").unwrap(), ext.as_str());
}

#[test]
fn revisions_of_refs_and_ids() {
    let r = Ref::Tag { name: "v1".to_string() };
    assert_eq!(Rev::from(r.clone()), Rev::Ref(r));
    let id = git2::Oid::from_str("2429f097664f9af0c5b7b389ab998b2199ffa977").unwrap();
    assert_eq!(Rev::from(id), Rev::Oid(id));
}
