//! Globs that select references of a git repository, possibly inside a
//! namespace.
use vstd::prelude::*;
use vstd::string::StringExecFns;

use crate::vcs::git::branch::BranchType;
use crate::vcs::git::object::{texts, Namespace};

verus! {

/// A kind of reference to look up by glob.
#[derive(Debug, Clone, PartialEq, Eq)]
pub enum RefGlob {
    /// The references under the glob `refs/tags/*`.
    Tag,
    /// The references under the glob `refs/heads/*`.
    LocalBranch,
    /// The references under the glob `refs/remotes/**/*`, or
    /// `refs/remotes/{remote}/*` when a remote is named.
    RemoteBranch {
        /// If `remote` is `None` then the `**` wildcard is used, otherwise
        /// the provided remote name.
        remote: Option<String>,
    },
    /// The references under the globs `refs/heads/*` and
    /// `refs/remotes/**/*`.
    Branch,
    /// The references under `refs/namespaces/**`.
    Namespace,
}

impl From<BranchType> for RefGlob {
    /// The glob of the branches of a type: local branches, or the remote
    /// branches of the named remote (of any remote when none is named).
    fn from(other: BranchType) -> (r: Self) {
        match other {
            BranchType::Remote { name } => RefGlob::RemoteBranch { remote: name },
            BranchType::Local => RefGlob::LocalBranch,
        }
    }
}

impl vstd::std_specs::convert::FromSpecImpl<BranchType> for RefGlob {
    open spec fn obeys_from_spec() -> bool {
        true
    }

    open spec fn from_spec(v: BranchType) -> Self {
        match v {
            BranchType::Remote { name } => RefGlob::RemoteBranch { remote: name },
            BranchType::Local => RefGlob::LocalBranch,
        }
    }
}

/// The glob text of a kind of reference; `Branch` stands for two globs and
/// has no text of its own.
pub open spec fn glob_text(g: RefGlob) -> Seq<char> {
    match g {
        RefGlob::Tag => "refs/tags/*"@,
        RefGlob::LocalBranch => "refs/heads/*"@,
        RefGlob::RemoteBranch { remote } => match remote {
            None => "refs/remotes/"@ + "**/*"@,
            Some(r) => "refs/remotes/"@ + r@ + "/*"@,
        },
        RefGlob::Branch => Seq::empty(),
        RefGlob::Namespace => "refs/namespaces/**"@,
    }
}

/// The glob prefix that enters the nested namespaces `names`, outermost
/// first.
pub open spec fn namespace_prefix(names: Seq<Seq<char>>) -> Seq<char>
    decreases names.len(),
{
    if names.len() == 0 {
        Seq::empty()
    } else {
        namespace_prefix(names.drop_last()) + "refs/namespaces/"@ + names.last() + "/"@
    }
}

/// The globs that select the references of kind `g` inside the namespace
/// `names`: the remote branches, then the local ones, for `Branch`.
pub open spec fn namespaced_globs(g: RefGlob, names: Seq<Seq<char>>) -> Seq<Seq<char>> {
    let p = namespace_prefix(names);
    match g {
        RefGlob::Branch => seq![
            p + glob_text(RefGlob::RemoteBranch { remote: None }),
            p + glob_text(RefGlob::LocalBranch),
        ],
        _ => seq![p + glob_text(g)],
    }
}

/// Entering the namespaces `a` and then the namespaces `b` puts the prefix
/// of `a` before that of `b`; no namespace gives no prefix; and the globs
/// inside `a` followed by `b` are the globs inside `b`, each behind the
/// prefix of `a`. At the top level the globs are the plain globs.
pub proof fn lemma_namespaced_globs(g: RefGlob, a: Seq<Seq<char>>, b: Seq<Seq<char>>)
    ensures
        namespace_prefix(Seq::empty()) == Seq::<char>::empty(),
        namespace_prefix(a + b) == namespace_prefix(a) + namespace_prefix(b),
        namespaced_globs(g, a + b).len() == namespaced_globs(g, b).len(),
        forall|i: int|
            0 <= i < namespaced_globs(g, b).len() ==> #[trigger] namespaced_globs(g, a + b)[i]
                == namespace_prefix(a) + namespaced_globs(g, b)[i],
        g is Branch ==> namespaced_globs(g, Seq::empty()) == seq![
            "refs/remotes/"@ + "**/*"@,
            "refs/heads/*"@,
        ],
        !(g is Branch) ==> namespaced_globs(g, Seq::empty()) == seq![glob_text(g)],
    decreases b.len(),
{
    if b.len() == 0 {
        assert(a + b =~= a);
        assert(namespace_prefix(a) + Seq::<char>::empty() =~= namespace_prefix(a));
    } else {
        lemma_namespaced_globs(g, a, b.drop_last());
        assert((a + b).drop_last() =~= a + b.drop_last());
        assert((a + b).last() == b.last());
        let pa = namespace_prefix(a);
        let pb = namespace_prefix(b.drop_last());
        assert(pa + (pb + "refs/namespaces/"@ + b.last() + "/"@) =~= (pa + pb) + "refs/namespaces/"@
            + b.last() + "/"@);
    }
    let e = Seq::<Seq<char>>::empty();
    assert(Seq::<char>::empty() + glob_text(g) =~= glob_text(g));
    assert(Seq::<char>::empty() + glob_text(RefGlob::RemoteBranch { remote: None }) =~= glob_text(
        RefGlob::RemoteBranch { remote: None },
    ));
    assert(Seq::<char>::empty() + glob_text(RefGlob::LocalBranch) =~= glob_text(RefGlob::LocalBranch));
    let p = namespace_prefix(a);
    let q = namespace_prefix(b);
    assert forall|i: int|
        0 <= i < namespaced_globs(g, b).len() implies #[trigger] namespaced_globs(g, a + b)[i] == p
        + namespaced_globs(g, b)[i] by {
        assert(p + (q + glob_text(g)) =~= (p + q) + glob_text(g));
        assert(p + (q + glob_text(RefGlob::RemoteBranch { remote: None })) =~= (p + q) + glob_text(
            RefGlob::RemoteBranch { remote: None },
        ));
        assert(p + (q + glob_text(RefGlob::LocalBranch)) =~= (p + q) + glob_text(RefGlob::LocalBranch));
    }
}

impl RefGlob {
    /// The glob text. `Branch` has none: it stands for two globs.
    pub fn to_string(&self) -> (r: String)
        requires
            !(self is Branch),
        ensures
            r@ == glob_text(*self),
    {
        match self {
            RefGlob::Tag => "refs/tags/*".to_owned(),
            RefGlob::LocalBranch => "refs/heads/*".to_owned(),
            RefGlob::RemoteBranch { remote } => {
                let mut r = "refs/remotes/".to_owned();
                match remote {
                    None => r.append("**/*"),
                    Some(remote) => {
                        r.append(remote.as_str());
                        r.append("/*");
                    },
                }
                r
            },
            RefGlob::Namespace => "refs/namespaces/**".to_owned(),
            RefGlob::Branch => {
                proof {
                    assert(false);
                }
                String::new()
            },
        }
    }

    /// The globs that select the references of this kind inside the
    /// namespace being browsed, `current`, or at the top level of the
    /// repository when none is.
    pub fn globs_in(&self, current: Option<Namespace>) -> (r: Vec<String>)
        ensures
            texts(r@) == namespaced_globs(
                *self,
                match current {
                    Some(n) => n@,
                    None => Seq::<Seq<char>>::empty(),
                },
            ),
    {
        let namespace = match current {
            Some(n) => n,
            None => Namespace::top_level(),
        };
        self.with_namespace_glob(namespace)
    }

    /// The globs that select the references of this kind inside the
    /// namespace `namespace`.
    pub fn with_namespace_glob(&self, namespace: Namespace) -> (r: Vec<String>)
        ensures
            texts(r@) == namespaced_globs(*self, namespace@),
    {
        let names = namespace.names();
        let ghost ns = namespace@;
        let mut namespace_glob = String::new();
        let mut i: usize = 0;
        proof {
            assert(ns.take(0) =~= Seq::<Seq<char>>::empty());
        }
        while i < names.len()
            invariant
                i <= names@.len(),
                texts(names@) == ns,
                namespace_glob@ == namespace_prefix(ns.take(i as int)),
            decreases names@.len() - i,
        {
            proof {
                assert(ns.take(i + 1).drop_last() =~= ns.take(i as int));
                assert(ns.take(i + 1).last() == names@[i as int]@);
            }
            namespace_glob.append("refs/namespaces/");
            namespace_glob.append(names[i].as_str());
            namespace_glob.append("/");
            i = i + 1;
        }
        proof {
            assert(ns.take(i as int) =~= ns);
        }
        let mut globs: Vec<String> = Vec::new();
        match self {
            RefGlob::Branch => {
                let remotes = RefGlob::RemoteBranch { remote: None }.to_string();
                let mut remote_glob = namespace_glob.clone();
                remote_glob.append(remotes.as_str());
                let locals = RefGlob::LocalBranch.to_string();
                let mut local_glob = namespace_glob;
                local_glob.append(locals.as_str());
                globs.push(remote_glob);
                globs.push(local_glob);
            },
            other => {
                let text = other.to_string();
                let mut glob = namespace_glob;
                glob.append(text.as_str());
                globs.push(glob);
            },
        }
        assert(texts(globs@) =~= namespaced_globs(*self, ns));
        globs
    }
}

} // verus!
