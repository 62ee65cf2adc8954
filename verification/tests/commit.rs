use std::str::FromStr;

use radicle_surf::vcs::git::error::Error;
use radicle_surf::vcs::git::{Author, Commit};

fn oid(text: &str) -> git2::Oid {
    git2::Oid::from_str(text).unwrap()
}

fn author(name: &str) -> Author {
    Author {
        name: name.to_string(),
        email: format!("{}@example.org", name),
        time: git2::Time::new(61, 0),
    }
}

fn bad_utf8() -> std::str::Utf8Error {
    let bytes: Vec<u8> = vec![0xc3, 0x28];
    std::str::from_utf8(&bytes).unwrap_err()
}

#[test]
fn commits_are_made_of_their_parts() {
    let id = oid("3873745c8f6ffb45c990eb23b491d4b4b6182f95");
    let parent = oid("d6880352fc7fda8f521ae9b7357668b17bb5bad5");
    let c = Commit::from_parts(
        id,
        Ok(author("ada")),
        Ok(author("bob")),
        Ok("Add README\n\nlonger".to_string()),
        Some(Ok("Add README".to_string())),
        vec![parent],
    )
    .unwrap();
    assert_eq!(c.id, id);
    assert_eq!(c.author, author("ada"));
    assert_eq!(c.committer, author("bob"));
    assert_eq!(c.summary, "Add README");
    assert_eq!(c.parents, vec![parent]);
    assert_eq!(c.clone(), c);
}

#[test]
fn commit_failures_come_in_order() {
    let id = oid("3873745c8f6ffb45c990eb23b491d4b4b6182f95");
    assert!(matches!(
        Commit::from_parts(id, Ok(author("a")), Ok(author("b")), Ok(String::new()), None, vec![]),
        Err(Error::MissingSummary)
    ));
    assert!(matches!(
        Commit::from_parts(id, Err(bad_utf8()), Ok(author("b")), Ok(String::new()), None, vec![]),
        Err(Error::Utf8Error(_))
    ));
    assert!(matches!(
        Commit::from_parts(id, Ok(author("a")), Ok(author("b")), Err(bad_utf8()), None, vec![]),
        Err(Error::Utf8Error(_))
    ));
    assert!(matches!(
        Commit::from_parts(
            id,
            Ok(author("a")),
            Ok(author("b")),
            Ok(String::new()),
            Some(Err(bad_utf8())),
            vec![]
        ),
        Err(Error::Utf8Error(_))
    ));
}
