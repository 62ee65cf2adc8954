//! Revisions that a browser is asked for by name: a tag, a branch of the
//! local user or of a remote peer, or a commit id; and whose revisions are
//! browsed.
use vstd::prelude::*;
use vstd::string::StringExecFns;

use crate::vcs::git::branch::{Branch, BranchType};
use crate::vcs::git::reference::name::{
    heads_prefix, lemma_one_level_plain, one_level_text, qualified_text, refs_slash, starts_with,
};
use crate::vcs::git::reference::{Ref, RefView, Rev};

verus! {

broadcast use vstd::string::group_string_axioms;

/// Whose revisions are browsed: the local user's, or those of a remote
/// peer, each with their identifier and the user.
#[derive(Debug)]
pub enum Category<P, U> {
    Local { identifier: P, user: U },
    Remote { identifier: P, user: U },
}

/// A revision asked for by name.
#[derive(Debug, Clone)]
pub enum Revision {
    /// The tag of this name.
    Tag { name: String },
    /// The branch of this name: of the remote peer `identifier` where one
    /// is given, else a local branch.
    Branch { name: String, identifier: Option<String> },
    /// The commit of this id.
    Sha { sha: git2::Oid },
}

/// The text `/heads`, which follows a peer's identifier in the name of the
/// remote that holds its branches.
pub open spec fn heads_suffix() -> Seq<char> {
    seq!['/', 'h', 'e', 'a', 'd', 's']
}

/// The text `heads/`, which comes before the name of a peer's branch.
pub open spec fn heads_dir() -> Seq<char> {
    seq!['h', 'e', 'a', 'd', 's', '/']
}

/// The branch type of the branches of the peer `identifier`: a remote
/// branch under the peer's `heads` when a peer is given, else a local
/// branch.
pub fn into_branch_type(identifier: Option<String>) -> (r: BranchType)
    ensures
        identifier is None ==> r == BranchType::Local,
        identifier matches Some(id) ==> (r matches BranchType::Remote { name: Some(n) } && n@
            == id@ + heads_suffix()),
{
    match identifier {
        None => BranchType::Local,
        Some(id) => {
            let mut name = id;
            name.append("/heads");
            proof {
                reveal_strlit("/heads");
                assert("/heads"@ =~= heads_suffix());
            }
            BranchType::Remote { name: Some(name) }
        },
    }
}

/// The references that revisions name: a peer's branch `b` is the remote
/// branch `heads/b` of the peer, kept whole; and a local branch named
/// without `/` is `refs/heads/` followed by its name.
pub proof fn lemma_revision_names(name: Seq<char>)
    ensures
        one_level_text(heads_dir() + name) == heads_dir() + name,
        !name.contains('/') ==> qualified_text(one_level_text(name)) == seq![
            'r',
            'e',
            'f',
            's',
            '/',
            'h',
            'e',
            'a',
            'd',
            's',
            '/',
        ] + name,
{
    let t = heads_dir() + name;
    if starts_with(t, refs_slash()) {
        assert(t.take(5)[0] == refs_slash()[0]);
        assert(t[0] == 'h');
    }
    if !name.contains('/') {
        lemma_one_level_plain(name);
        if starts_with(name, refs_slash()) {
            assert(name.take(5)[4] == '/');
            assert(name[4] == '/');
        }
        assert(heads_prefix() =~= seq!['r', 'e', 'f', 's', '/', 'h', 'e', 'a', 'd', 's', '/']);
    }
}

impl<U> Category<String, U> {
    /// The branch type of the branches browsed for this category: local
    /// branches for the local user, the peer's branches for a remote peer.
    pub fn branch_type(&self) -> (r: BranchType)
        ensures
            self is Local ==> r == BranchType::Local,
            self matches Category::Remote { identifier, .. } ==> (r matches BranchType::Remote {
                name: Some(n),
            } && n@ == identifier@ + heads_suffix()),
    {
        match self {
            Category::Local { .. } => BranchType::Local,
            Category::Remote { identifier, .. } => into_branch_type(Some(identifier.clone())),
        }
    }
}

impl Revision {
    /// The revision that this names: the tag reference of a tag; for a
    /// branch of a peer, the remote branch `heads/<name>` of the peer; for
    /// a local branch, the qualified reference of its one-level name; and
    /// the commit id of a sha.
    pub fn into_rev(self) -> (r: Rev)
        ensures
            self matches Revision::Tag { name } ==> (r matches Rev::Ref(rf) && rf@ == RefView::Tag {
                name: name@,
            }),
            self matches Revision::Branch { name, identifier: Some(peer) } ==> (r matches Rev::Ref(rf)
                && rf@ == RefView::RemoteBranch {
                remote: peer@,
                name: one_level_text(heads_dir() + name@),
            }),
            self matches Revision::Branch { name, identifier: None } ==> (r matches Rev::Ref(rf)
                && rf@ == RefView::LocalBranch { name: qualified_text(one_level_text(name@)) }),
            self matches Revision::Sha { sha } ==> r == Rev::Oid(sha),
    {
        match self {
            Revision::Tag { name } => Rev::Ref(Ref::Tag { name }),
            Revision::Branch { name, identifier } => match identifier {
                Some(peer) => {
                    let mut branch_name = String::from_str("heads/");
                    branch_name.append(name.as_str());
                    proof {
                        reveal_strlit("heads/");
                        assert(branch_name@ =~= heads_dir() + name@);
                    }
                    Rev::Ref(Branch::remote(branch_name.as_str(), peer.as_str()).into_ref())
                },
                None => Rev::Ref(Branch::local(name.as_str()).into_ref()),
            },
            Revision::Sha { sha } => Rev::Oid(sha),
        }
    }
}

} // verus!
