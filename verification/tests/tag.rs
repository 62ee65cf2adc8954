use std::str::FromStr;

use radicle_surf::vcs::git::reference::name::StripPrefixError;
use radicle_surf::vcs::git::tag::Error;
use radicle_surf::vcs::git::{Author, Tag};

fn oid() -> git2::Oid {
    git2::Oid::from_str("2429f097664f9af0c5b7b389ab998b2199ffa977").unwrap()
}

fn author() -> Author {
    Author {
        name: "Ada".to_string(),
        email: "ada@example.org".to_string(),
        time: git2::Time::new(61, 0),
    }
}

fn bad_utf8() -> std::str::Utf8Error {
    let bytes: Vec<u8> = vec![0xff, 0xfe];
    std::str::from_utf8(&bytes).unwrap_err()
}

#[test]
fn tags_have_one_level_names() {
    let light = Tag::light(oid(), "refs/tags/v0.2.0");
    assert_eq!(light.name(), "v0.2.0");
    assert_eq!(light.id(), oid());
    let annotated = Tag::annotated(oid(), "v1.0.0", Some(author()), Some("release".to_string()));
    assert_eq!(annotated.name(), "v1.0.0");
    assert_eq!(annotated.id(), oid());
    assert_eq!(annotated.clone(), annotated);
}

#[test]
fn tag_objects_check_name_then_tagger_then_message() {
    let t = Tag::from_object(oid(), "v1.0.0", Ok(Some(author())), Ok(None)).unwrap();
    assert_eq!(
        t,
        Tag::Annotated { id: oid(), name: "v1.0.0".to_string(), tagger: Some(author()), message: None }
    );
    assert!(matches!(
        Tag::from_object(oid(), "bad..name", Err(bad_utf8()), Ok(None)),
        Err(Error::Name(_))
    ));
    assert!(matches!(
        Tag::from_object(oid(), "v1", Err(bad_utf8()), Err(bad_utf8())),
        Err(Error::Utf8(_))
    ));
    assert!(matches!(Tag::from_object(oid(), "v1", Ok(None), Err(bad_utf8())), Err(Error::Utf8(_))));
}

#[test]
fn tag_reference_names() {
    assert_eq!(Tag::reference_name("refs/tags/v1").unwrap(), "refs/tags/v1");
    assert_eq!(
        Tag::reference_name("refs/namespaces/moi/refs/tags/v1").unwrap(),
        "refs/tags/v1"
    );
    assert!(matches!(
        Tag::reference_name("refs/heads/master"),
        Err(Error::NotTag(name)) if name == "refs/heads/master"
    ));
    assert!(matches!(Tag::reference_name("refs/tags/a..b"), Err(Error::Name(_))));
    assert!(matches!(
        Tag::reference_name("refs/namespaces/refs/tags/v1"),
        Err(Error::Strip(StripPrefixError::NotPrefix))
    ));
}
