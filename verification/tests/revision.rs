use radicle_surf::vcs::git::branch::BranchType;
use radicle_surf::vcs::git::reference::{Ref, Rev};
use radicle_surf::vcs::git::revision::{into_branch_type, Category, Revision};

#[test]
fn into_branch_type_of_a_peer_is_its_heads() {
    assert_eq!(into_branch_type(None), BranchType::Local);
    assert_eq!(
        into_branch_type(Some(String::from("peer"))),
        BranchType::Remote { name: Some(String::from("peer/heads")) }
    );
}

#[test]
fn category_branch_types() {
    let local: Category<String, ()> = Category::Local { identifier: String::from("me"), user: () };
    assert_eq!(local.branch_type(), BranchType::Local);
    let remote: Category<String, ()> = Category::Remote { identifier: String::from("peer"), user: () };
    assert_eq!(
        remote.branch_type(),
        BranchType::Remote { name: Some(String::from("peer/heads")) }
    );
}

#[test]
fn revisions_into_revs() {
    assert_eq!(
        Revision::Tag { name: String::from("v1.0") }.into_rev(),
        Rev::Ref(Ref::Tag { name: String::from("v1.0") })
    );
    assert_eq!(
        Revision::Branch { name: String::from("master"), identifier: None }.into_rev(),
        Rev::Ref(Ref::LocalBranch { name: String::from("refs/heads/master") })
    );
    assert_eq!(
        Revision::Branch { name: String::from("master"), identifier: Some(String::from("peer")) }
            .into_rev(),
        Rev::Ref(Ref::RemoteBranch {
            remote: String::from("peer"),
            name: String::from("heads/master"),
        })
    );
    let oid = git2::Oid::from_str("80bacafba303bf0cdf6142921f430ff265f25095").unwrap();
    assert_eq!(Revision::Sha { sha: oid }.into_rev(), Rev::Oid(oid));
}
