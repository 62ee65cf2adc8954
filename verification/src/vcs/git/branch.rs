//! Branches: local ones under `refs/heads/` and remote ones under
//! `refs/remotes/<remote>/`, and how a branch is read from the name of a
//! reference.
use vstd::prelude::*;
use vstd::string::{StrSliceExecFns, StringExecFns};

use radicle_git_ext::reference::name::Error as NameError;

use crate::file_system::path::{
    join_slash, lemma_join_split, lemma_split_concat, lemma_split_single, split_on_slash,
};
use crate::strings::chars_of;
use crate::vcs::git::ext::{
    holds_at, is_remote, names_remote, remove_namespace, remove_namespace_text, slash_on_line,
};
use crate::vcs::git::reference::name::{
    lemma_one_level_below, lemma_one_level_plain, namespaces_prefix, one_level, one_level_text,
    prefix_base, qualified, qualified_text, ref_format_accepts, ref_like, refs_slash,
    remotes_prefix, starts_with, strip_prefix, strip_prefix_text, text_starts_with,
    StripPrefixError,
};
use crate::vcs::git::reference::{Ref, RefView};

verus! {

broadcast use vstd::string::group_string_axioms;

/// Why a branch could not be read from a reference.
#[derive(Debug)]
pub enum Error {
    /// The reference's name is not a reference name.
    Name(NameError),
    /// No remote could be found in the name.
    NoRemote(String),
    /// The reference is not a branch: it is a tag or a note.
    NotBranch(String),
    /// The namespace could not be removed from the name.
    Strip(StripPrefixError),
}

/// An `Error` with its texts as character sequences.
pub enum BranchFailure {
    Name,
    NoRemote(Seq<char>),
    NotBranch(Seq<char>),
    Strip(StripPrefixError),
}

/// `e` with its texts as character sequences.
pub open spec fn branch_failure(e: Error) -> BranchFailure {
    match e {
        Error::Name(_) => BranchFailure::Name,
        Error::NoRemote(s) => BranchFailure::NoRemote(s@),
        Error::NotBranch(s) => BranchFailure::NotBranch(s@),
        Error::Strip(k) => BranchFailure::Strip(k),
    }
}

/// The branch type we want to filter on.
#[derive(Debug, Clone, PartialEq, PartialOrd, Eq, Ord, Hash)]
pub enum BranchType {
    /// Local branches that are under `refs/heads/*`.
    Local,
    /// Remote branches that are under `refs/remotes/<name>/*` if the name is
    /// provided, otherwise `refs/remotes/**/*`.
    Remote {
        /// Name of the remote.
        name: Option<String>,
    },
}

/// A `BranchType` with its texts as character sequences.
pub enum Locality {
    Local,
    Remote(Option<Seq<char>>),
}

/// The static information of a branch: its one-level name, and whether it
/// is local or remote.
#[derive(Debug, Clone, PartialEq, Eq)]
pub struct Branch {
    /// Name identifier of the `Branch`.
    pub name: String,
    /// Whether the `Branch` is `Remote` or `Local`.
    pub locality: BranchType,
}

/// A branch with its texts as character sequences.
pub struct BranchView {
    pub name: Seq<char>,
    pub locality: Locality,
}

/// `t` with its texts as character sequences.
pub open spec fn locality_of(t: BranchType) -> Locality {
    match t {
        BranchType::Local => Locality::Local,
        BranchType::Remote { name: None } => Locality::Remote(None),
        BranchType::Remote { name: Some(r) } => Locality::Remote(Some(r@)),
    }
}

impl View for Branch {
    type V = BranchView;

    open spec fn view(&self) -> BranchView {
        BranchView { name: self.name@, locality: locality_of(self.locality) }
    }
}

/// The name a branch goes by: a remote branch whose remote is known is
/// named by its remote and its name, in one-level form.
pub open spec fn branch_name(b: BranchView) -> Seq<char> {
    match b.locality {
        Locality::Remote(Some(r)) => one_level_text(r + seq!['/'] + b.name),
        _ => b.name,
    }
}

/// The text `"heads/"`.
pub open spec fn heads_dir() -> Seq<char> {
    seq!['h', 'e', 'a', 'd', 's', '/']
}

/// The remote and the one-level branch name of a name under
/// `refs/remotes/`: the remote is the first piece after `refs/remotes/`,
/// the branch is the rest, without a leading `heads/`. Both must be
/// reference names. A name elsewhere has none.
pub open spec fn extract_remote_text(s: Seq<char>) -> Result<
    Option<(Seq<char>, Seq<char>)>,
    BranchFailure,
> {
    if !starts_with(s, remotes_prefix()) {
        Ok(None)
    } else {
        match strip_prefix_text(s, remotes_prefix()) {
            Err(e) => Err(BranchFailure::Strip(e)),
            Ok(suffix) => {
                let pieces = split_on_slash(suffix);
                let remote = pieces[0];
                let rest = join_slash(pieces.skip(1));
                if !ref_format_accepts(remote) || !ref_format_accepts(rest) {
                    Err(BranchFailure::Name)
                } else if starts_with(rest, heads_dir()) {
                    match strip_prefix_text(rest, heads_dir()) {
                        Err(e) => Err(BranchFailure::Strip(e)),
                        Ok(name) => Ok(Some((remote, one_level_text(name)))),
                    }
                } else {
                    Ok(Some((remote, one_level_text(rest))))
                }
            },
        }
    }
}

/// The branch that a reference named `name` is, given whether git says it
/// is a tag or a note: the name must be a reference name; its namespaces
/// are removed; tags and notes are no branches; a name that names a remote
/// branch is read with `extract_remote_text`, and any other is a local
/// branch of the name's one-level form.
pub open spec fn branch_from(name: Seq<char>, is_tag: bool, is_note: bool) -> Result<
    BranchView,
    BranchFailure,
> {
    if !ref_format_accepts(name) {
        Err(BranchFailure::Name)
    } else {
        match remove_namespace_text(name) {
            Err(e) => Err(BranchFailure::Strip(e)),
            Ok(n) => if is_tag || is_note {
                Err(BranchFailure::NotBranch(n))
            } else if names_remote(name) {
                match extract_remote_text(n) {
                    Err(e) => Err(e),
                    Ok(None) => Err(BranchFailure::NoRemote(n)),
                    Ok(Some((remote, b))) => Ok(
                        BranchView { name: b, locality: Locality::Remote(Some(remote)) },
                    ),
                }
            } else {
                Ok(BranchView { name: one_level_text(n), locality: Locality::Local })
            },
        }
    }
}

/// The text `refs/heads/`.
pub open spec fn local_heads() -> Seq<char> {
    seq!['r', 'e', 'f', 's', '/', 'h', 'e', 'a', 'd', 's', '/']
}

/// The text `refs/remotes/`.
pub open spec fn remote_heads() -> Seq<char> {
    seq!['r', 'e', 'f', 's', '/', 'r', 'e', 'm', 'o', 't', 'e', 's', '/']
}

/// A name under `refs/heads/` whose rest holds no `refs/remotes/` names no
/// remote branch.
proof fn lemma_local_not_remote(b: Seq<char>)
    requires
        forall|i: int| 0 <= i && i + 13 <= b.len() ==> #[trigger] b.subrange(i, i + 13) != remote_heads(),
    ensures
        !names_remote(local_heads() + b),
{
    let name = local_heads() + b;
    let h = local_heads();
    assert(h[1] == 'e' && h[2] == 'f' && h[3] == 's' && h[4] == '/' && h[5] == 'h' && h[6] == 'e'
        && h[7] == 'a' && h[8] == 'd' && h[9] == 's' && h[10] == '/');
    assert(remotes_prefix() =~= remote_heads());
    assert forall|i: int| !holds_at(name, remotes_prefix(), i) by {
        if holds_at(name, remotes_prefix(), i) {
            let w = name.subrange(i, i + 13);
            assert(w == remotes_prefix());
            assert(w[0] == name[i]);
            assert(remotes_prefix()[0] == 'r' && remotes_prefix()[5] == 'r');
            if i >= 11 {
                let k = i - 11;
                assert(b.subrange(k, k + 13) =~= w);
            } else if i == 0 {
                assert(w[5] == name[5]);
                assert(name[5] == h[5]);
            } else {
                assert(name[i] == h[i]);
            }
        }
    }
}

/// A name under `refs/heads/` that git accepts, read as a branch that is
/// neither a tag nor a note, is the local branch named by everything after
/// `refs/heads/`, slashes and all, unless that part itself holds
/// `refs/remotes/`.
pub proof fn lemma_local_branch_name(b: Seq<char>)
    requires
        ref_format_accepts(local_heads() + b),
        forall|i: int| 0 <= i && i + 13 <= b.len() ==> #[trigger] b.subrange(i, i + 13) != remote_heads(),
    ensures
        branch_from(local_heads() + b, false, false) == Ok::<BranchView, BranchFailure>(
            BranchView { name: b, locality: Locality::Local },
        ),
{
    let name = local_heads() + b;
    assert(!starts_with(name, namespaces_prefix())) by {
        if starts_with(name, namespaces_prefix()) {
            assert(name.take(16)[5] == namespaces_prefix()[5]);
            assert(name[5] == local_heads()[5]);
        }
    }
    assert(remove_namespace_text(name) == Ok::<Seq<char>, StripPrefixError>(name));
    lemma_local_not_remote(b);
    let heads = seq!['h', 'e', 'a', 'd', 's'];
    assert(!heads.contains('/')) by {
        if heads.contains('/') {
            let k = choose|k: int| 0 <= k < heads.len() && heads[k] == '/';
        }
    }
    assert(name =~= refs_slash() + heads + seq!['/'] + b);
    lemma_one_level_below(heads, b);
}

/// A name under `refs/remotes/` of a remote without `/` or line break,
/// followed by `/`, names a remote branch.
proof fn lemma_remote_names_remote(r: Seq<char>, b: Seq<char>)
    requires
        !r.contains('/'),
        !r.contains('\n'),
    ensures
        names_remote(remote_heads() + r + seq!['/'] + b),
        !starts_with(remote_heads() + r + seq!['/'] + b, namespaces_prefix()),
{
    let name = remote_heads() + r + seq!['/'] + b;
    assert(name.subrange(0, 13) =~= remotes_prefix());
    assert(holds_at(name, remotes_prefix(), 0));
    let j: int = 13 + r.len() as int;
    assert(name[j] == '/');
    assert forall|k: int| 13 <= k < j implies #[trigger] name[k] != '\n' by {
        assert(name[k] == r[k - 13]);
    }
    assert(slash_on_line(name, 13));
    if starts_with(name, namespaces_prefix()) {
        assert(name.take(16)[5] == namespaces_prefix()[5]);
        assert(name[5] == remote_heads()[5]);
    }
}

/// The remote and the branch that a name under `refs/remotes/` of a remote
/// and a branch, neither holding `/`, is read as.
proof fn lemma_remote_extract(r: Seq<char>, b: Seq<char>)
    requires
        !r.contains('/'),
        !b.contains('/'),
        ref_format_accepts(r),
        ref_format_accepts(b),
    ensures
        extract_remote_text(remote_heads() + r + seq!['/'] + b) == Ok::<
            Option<(Seq<char>, Seq<char>)>,
            BranchFailure,
        >(Some((r, b))),
{
    let name = remote_heads() + r + seq!['/'] + b;
    assert(remotes_prefix() =~= remote_heads());
    assert(name.take(13) =~= remote_heads());
    let suffix = r + seq!['/'] + b;
    assert(name.skip(13) =~= suffix);
    assert(prefix_base(remotes_prefix()) =~= remotes_prefix());
    assert(strip_prefix_text(name, remotes_prefix()) == Ok::<Seq<char>, StripPrefixError>(suffix));
    lemma_split_single(r);
    lemma_split_concat(r, b);
    lemma_split_single(b);
    let pieces = split_on_slash(suffix);
    assert(pieces =~= seq![r, b]);
    assert(pieces.skip(1) =~= seq![b]);
    lemma_join_split(b);
    assert(join_slash(pieces.skip(1)) == b);
    assert(!starts_with(b, heads_dir())) by {
        if starts_with(b, heads_dir()) {
            assert(b.take(6)[5] == '/');
            assert(b[5] == '/');
        }
    }
    lemma_one_level_plain(b);
}

/// A name under `refs/remotes/` of a remote `r` and a branch `b`, neither
/// holding a `/` and the remote no line break, whose names git accepts, is
/// the branch `b` of the remote `r`.
pub proof fn lemma_remote_branch_name(r: Seq<char>, b: Seq<char>)
    requires
        !r.contains('/'),
        !r.contains('\n'),
        !b.contains('/'),
        ref_format_accepts(remote_heads() + r + seq!['/'] + b),
        ref_format_accepts(r),
        ref_format_accepts(b),
    ensures
        branch_from(remote_heads() + r + seq!['/'] + b, false, false) == Ok::<BranchView, BranchFailure>(
            BranchView { name: b, locality: Locality::Remote(Some(r)) },
        ),
{
    let name = remote_heads() + r + seq!['/'] + b;
    lemma_remote_names_remote(r, b);
    assert(remove_namespace_text(name) == Ok::<Seq<char>, StripPrefixError>(name));
    lemma_remote_extract(r, b);
}

/// The remote and the branch of `extract_remote`, or the failure, with
/// their texts as character sequences.
pub open spec fn extracted(r: Result<Option<(String, String)>, Error>) -> Result<
    Option<(Seq<char>, Seq<char>)>,
    BranchFailure,
> {
    match r {
        Ok(None) => Ok(None),
        Ok(Some((a, b))) => Ok(Some((a@, b@))),
        Err(e) => Err(branch_failure(e)),
    }
}

/// The first piece of `s` and the rest after its first `/`.
fn first_piece(s: &str) -> (r: (String, String))
    ensures
        r.0@ == split_on_slash(s@)[0],
        r.1@ == join_slash(split_on_slash(s@).skip(1)),
{
    let c = chars_of(s);
    let mut j: usize = 0;
    while j < c.len() && c[j] != '/'
        invariant
            j <= c@.len(),
            c@ == s@,
            forall|k: int| 0 <= k < j ==> c@[k] != '/',
        decreases c@.len() - j,
    {
        j = j + 1;
    }
    let ghost head = s@.take(j as int);
    assert(!head.contains('/')) by {
        if head.contains('/') {
            let k = choose|k: int| 0 <= k < head.len() && head[k] == '/';
            assert(c@[k] == '/');
        }
    }
    if j == c.len() {
        proof {
            assert(head =~= s@);
            lemma_split_single(s@);
            assert(split_on_slash(s@).skip(1) =~= Seq::<Seq<char>>::empty());
        }
        (s.to_owned(), String::new())
    } else {
        let first = s.substring_char(0, j).to_owned();
        let rest = s.substring_char(j + 1, c.len()).to_owned();
        proof {
            let tail = s@.skip(j + 1);
            assert(s@ =~= head + seq!['/'] + tail);
            lemma_split_single(head);
            lemma_split_concat(head, tail);
            assert(split_on_slash(s@).skip(1) =~= split_on_slash(tail));
            lemma_join_split(tail);
            assert(first@ =~= head);
            assert(rest@ =~= tail);
        }
        (first, rest)
    }
}

/// The remote and the one-level branch name of the reference name
/// `reflike`, when it is under `refs/remotes/`; see
/// `extract_remote_text`.
pub fn extract_remote(reflike: &str) -> (r: Result<Option<(String, String)>, Error>)
    ensures
        extracted(r) == extract_remote_text(reflike@),
{
    let chars = chars_of(reflike);
    proof {
        reveal_strlit("refs/remotes/");
        assert("refs/remotes/"@ =~= remotes_prefix());
        reveal_strlit("heads/");
        assert("heads/"@ =~= heads_dir());
    }
    if !text_starts_with(&chars, "refs/remotes/") {
        return Ok(None);
    }
    let suffix = match strip_prefix(reflike, "refs/remotes/") {
        Ok(s) => s,
        Err(e) => return Err(Error::Strip(e)),
    };
    let (remote, rest) = first_piece(suffix.as_str());
    let remote = match ref_like(remote.as_str()) {
        Ok(t) => t,
        Err(e) => return Err(Error::Name(e)),
    };
    let rest = match ref_like(rest.as_str()) {
        Ok(t) => t,
        Err(e) => return Err(Error::Name(e)),
    };
    let rc = chars_of(rest.as_str());
    let name = if text_starts_with(&rc, "heads/") {
        match strip_prefix(rest.as_str(), "heads/") {
            Ok(n) => n,
            Err(e) => return Err(Error::Strip(e)),
        }
    } else {
        rest
    };
    Ok(Some((remote, one_level(name.as_str()))))
}

impl Branch {
    /// A remote branch of the remote `remote`, named by the one-level form
    /// of `name`.
    pub fn remote(name: &str, remote: &str) -> (r: Self)
        ensures
            r@.name == one_level_text(name@),
            r@.locality == Locality::Remote(Some(remote@)),
    {
        Branch {
            name: one_level(name),
            locality: BranchType::Remote { name: Some(remote.to_owned()) },
        }
    }

    /// A local branch, named by the one-level form of `name`.
    pub fn local(name: &str) -> (r: Self)
        ensures
            r@.name == one_level_text(name@),
            r@.locality == Locality::Local,
    {
        Branch { name: one_level(name), locality: BranchType::Local }
    }

    /// The name of the branch; see `branch_name`.
    pub fn name(&self) -> (r: String)
        ensures
            r@ == branch_name(self@),
    {
        match &self.locality {
            BranchType::Remote { name: Some(remote) } => {
                let mut joined = remote.clone();
                joined.append("/");
                joined.append(self.name.as_str());
                proof {
                    reveal_strlit("/");
                    assert(joined@ =~= remote@ + seq!['/'] + self.name@);
                }
                one_level(joined.as_str())
            },
            _ => self.name.clone(),
        }
    }

    /// The reference of the branch: a local branch under its qualified
    /// name, a remote branch under its remote. The remote must be known.
    pub fn into_ref(self) -> (r: Ref)
        requires
            !(self@.locality matches Locality::Remote(None)),
        ensures
            r@ == match self@.locality {
                Locality::Local => RefView::LocalBranch { name: qualified_text(self@.name) },
                Locality::Remote(remote) => RefView::RemoteBranch {
                    remote: remote.unwrap(),
                    name: self@.name,
                },
            },
    {
        match self.locality {
            BranchType::Local => Ref::LocalBranch { name: qualified(self.name.as_str()) },
            BranchType::Remote { name: Some(remote) } => Ref::RemoteBranch {
                name: self.name,
                remote,
            },
            BranchType::Remote { name: None } => {
                proof {
                    assert(false);
                }
                Ref::LocalBranch { name: self.name }
            },
        }
    }

    /// The branch that a reference named `name` is, given whether git says
    /// it is a tag or a note; see `branch_from`.
    pub fn from_reference(name: &str, is_tag: bool, is_note: bool) -> (r: Result<Branch, Error>)
        ensures
            match r {
                Ok(b) => branch_from(name@, is_tag, is_note) == Ok::<BranchView, BranchFailure>(
                    b@,
                ),
                Err(e) => branch_from(name@, is_tag, is_note) == Err::<BranchView, BranchFailure>(
                    branch_failure(e),
                ),
            },
    {
        let remote = is_remote(Some(name));
        let text = match ref_like(name) {
            Ok(t) => t,
            Err(e) => return Err(Error::Name(e)),
        };
        let name = match remove_namespace(text.as_str()) {
            Ok(n) => n,
            Err(e) => return Err(Error::Strip(e)),
        };
        if is_tag || is_note {
            return Err(Error::NotBranch(name));
        }
        if remote {
            match extract_remote(name.as_str()) {
                Err(e) => Err(e),
                Ok(None) => Err(Error::NoRemote(name)),
                Ok(Some((remote, branch))) => Ok(
                    Branch { name: branch, locality: BranchType::Remote { name: Some(remote) } },
                ),
            }
        } else {
            Ok(Branch { name: one_level(name.as_str()), locality: BranchType::Local })
        }
    }
}

} // verus!
