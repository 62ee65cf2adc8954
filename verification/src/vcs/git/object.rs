//! Static information about a git repository: statistics, authors, commit
//! signatures and namespaces.
use vstd::prelude::*;
use vstd::string::{StrSliceExecFns, StringExecFns};

use std::str::Utf8Error;

use crate::file_system::path::{join_slash, split_on_slash};
use crate::vcs::git::error::Error;
use crate::vcs::git::ext::{holds_at, text_at};
use crate::vcs::git::reference::name::namespaces_prefix;
use crate::strings::chars_of;

verus! {

/// A git object id.
#[verifier::external_type_specification]
#[verifier::external_body]
pub struct ExOid(git2::Oid);

/// A git time stamp.
#[verifier::external_type_specification]
#[verifier::external_body]
pub struct ExTime(git2::Time);

/// `Clone` of git2's `Oid`, which git2 derives together with `Copy`: the
/// clone is the same id.
pub assume_specification[ <git2::Oid as Clone>::clone ](oid: &git2::Oid) -> (r: git2::Oid)
    ensures
        r == *oid,
;

/// `Clone` of git2's `Time`, which git2 derives together with `Copy`: the
/// clone is the same time.
pub assume_specification[ <git2::Time as Clone>::clone ](time: &git2::Time) -> (r: git2::Time)
    ensures
        r == *time,
;

/// `Author` is the static information of a git signature.
#[derive(Debug, Clone, PartialEq, Eq, PartialOrd, Ord)]
pub struct Author {
    /// Name of the author.
    pub name: String,
    /// Email of the author.
    pub email: String,
    /// Time the action was taken, e.g. time of commit.
    pub time: git2::Time,
}

/// `Commit` is the static information of a git commit. The `id` gets the
/// commit back from the repository.
#[derive(Debug, Clone, PartialEq, Eq, PartialOrd, Ord)]
pub struct Commit {
    /// Object ID of the Commit, i.e. the SHA1 digest.
    pub id: git2::Oid,
    /// The author of the commit.
    pub author: Author,
    /// The actor who committed this commit.
    pub committer: Author,
    /// The long form message of the commit.
    pub message: String,
    /// The summary message of the commit.
    pub summary: String,
    /// The parents of this commit.
    pub parents: Vec<git2::Oid>,
}

/// The commit made of what was read of a git commit, or the first failure
/// of the reading: the author, the committer, the message, a missing
/// summary, the summary.
pub open spec fn commit_from(
    id: git2::Oid,
    author: Result<Author, Utf8Error>,
    committer: Result<Author, Utf8Error>,
    message: Result<String, Utf8Error>,
    summary: Option<Result<String, Utf8Error>>,
    parents: Vec<git2::Oid>,
) -> Result<Commit, Error> {
    match (author, committer, message, summary) {
        (Err(e), _, _, _) => Err(Error::Utf8Error(e)),
        (Ok(_), Err(e), _, _) => Err(Error::Utf8Error(e)),
        (Ok(_), Ok(_), Err(e), _) => Err(Error::Utf8Error(e)),
        (Ok(_), Ok(_), Ok(_), None) => Err(Error::MissingSummary),
        (Ok(_), Ok(_), Ok(_), Some(Err(e))) => Err(Error::Utf8Error(e)),
        (Ok(a), Ok(c), Ok(m), Some(Ok(s))) => Ok(
            Commit { id, author: a, committer: c, message: m, summary: s, parents },
        ),
    }
}

/// A commit is made exactly when every part was read, the summary
/// included; it then keeps each part in its own field: the id, the author,
/// the committer, the whole message, the summary and the parents as given.
/// A missing summary, when the other parts were read, is its own failure.
pub proof fn lemma_commit_keeps_parts(
    id: git2::Oid,
    author: Result<Author, Utf8Error>,
    committer: Result<Author, Utf8Error>,
    message: Result<String, Utf8Error>,
    summary: Option<Result<String, Utf8Error>>,
    parents: Vec<git2::Oid>,
)
    ensures
        commit_from(id, author, committer, message, summary, parents) is Ok <==> author is Ok
            && committer is Ok && message is Ok && summary matches Some(Ok(_)),
        commit_from(id, author, committer, message, summary, parents) matches Ok(c) ==> c.id == id
            && author == Ok::<Author, Utf8Error>(c.author) && committer == Ok::<Author, Utf8Error>(
            c.committer,
        ) && message == Ok::<String, Utf8Error>(c.message) && summary == Some(
            Ok::<String, Utf8Error>(c.summary),
        ) && c.parents == parents,
        author is Ok && committer is Ok && message is Ok && summary is None ==> commit_from(
            id,
            author,
            committer,
            message,
            summary,
            parents,
        ) == Err::<Commit, Error>(Error::MissingSummary),
{
}

impl Commit {
    /// The commit made of what was read of a git commit: its id, its author
    /// and committer, its message and summary (which may be missing), and
    /// its parents; see `commit_from` for which failure comes first.
    pub fn from_parts(
        id: git2::Oid,
        author: Result<Author, Utf8Error>,
        committer: Result<Author, Utf8Error>,
        message: Result<String, Utf8Error>,
        summary: Option<Result<String, Utf8Error>>,
        parents: Vec<git2::Oid>,
    ) -> (r: Result<Commit, Error>)
        ensures
            r == commit_from(id, author, committer, message, summary, parents),
    {
        let author = match author {
            Ok(a) => a,
            Err(e) => return Err(Error::Utf8Error(e)),
        };
        let committer = match committer {
            Ok(c) => c,
            Err(e) => return Err(Error::Utf8Error(e)),
        };
        let message = match message {
            Ok(m) => m,
            Err(e) => return Err(Error::Utf8Error(e)),
        };
        let summary = match summary {
            None => return Err(Error::MissingSummary),
            Some(Err(e)) => return Err(Error::Utf8Error(e)),
            Some(Ok(s)) => s,
        };
        Ok(Commit { id, author, committer, message, summary, parents })
    }
}

/// Stats for a repository.
#[derive(Debug, Clone, Copy, PartialEq, Eq)]
pub struct Stats {
    /// Number of commits.
    pub commits: usize,
    /// Number of local branches.
    pub branches: usize,
    /// Number of contributors.
    pub contributors: usize,
}

/// The signature of a commit.
#[derive(Debug, Clone, PartialEq, Eq, PartialOrd, Ord)]
pub struct Signature(pub(crate) Vec<u8>);

/// The texts of a sequence of strings.
pub open spec fn texts(values: Seq<String>) -> Seq<Seq<char>> {
    values.map_values(|s: String| s@)
}

/// The first position at or after `j` of a `/` in `s`, or the length of
/// `s` when there is none.
pub open spec fn first_slash_from(s: Seq<char>, j: int) -> int
    decreases s.len() - j,
{
    if j >= s.len() || j < 0 {
        s.len() as int
    } else if s[j] == '/' {
        j
    } else {
        first_slash_from(s, j + 1)
    }
}

/// The first `/` at or after `j` is not before `j`.
pub proof fn lemma_first_slash_bounds(s: Seq<char>, j: int)
    requires
        0 <= j <= s.len(),
    ensures
        j <= first_slash_from(s, j),
    decreases s.len() - j,
{
    if j < s.len() && s[j] != '/' {
        lemma_first_slash_bounds(s, j + 1);
    }
}

/// A namespace starts at position `i` of `s`: `refs/namespaces/`, a
/// character other than `/`, and a `/` later on.
pub open spec fn namespace_at(s: Seq<char>, i: int) -> bool {
    &&& holds_at(s, namespaces_prefix(), i)
    &&& i + 16 < s.len()
    &&& s[i + 16] != '/'
    &&& first_slash_from(s, i + 16) < s.len()
}

/// The names of the namespaces found in `s` from position `pos` on, left
/// to right: at each position where a namespace starts, its name is the
/// text up to the next `/`, and the search goes on after that `/`.
pub open spec fn namespaces_in(s: Seq<char>, pos: int) -> Seq<Seq<char>>
    decreases s.len() - pos,
{
    if pos >= s.len() || pos < 0 {
        Seq::empty()
    } else if namespace_at(s, pos) {
        let k = first_slash_from(s, pos + 16);
        proof {
            lemma_first_slash_bounds(s, pos + 16);
        }
        seq![s.subrange(pos + 16, k)] + namespaces_in(s, k + 1)
    } else {
        namespaces_in(s, pos + 1)
    }
}

/// Where the scan for a `/` stopped, at the end of `s` or at a `/`, is the
/// first `/` from there on.
proof fn lemma_first_slash_here(s: Seq<char>, k: int)
    requires
        0 <= k <= s.len(),
        k == s.len() || s[k] == '/',
    ensures
        first_slash_from(s, k) == k,
{
}

/// A `Namespace` value allows a git browser to switch namespaces. Since
/// namespaces can be nested it holds a vector of names: the namespace
/// `"foo/bar"` is represented as `vec!["foo", "bar"]`.
#[derive(Debug, Clone, PartialEq, Eq, PartialOrd, Ord, Hash)]
pub struct Namespace {
    pub(crate) values: Vec<String>,
}

impl View for Namespace {
    type V = Seq<Seq<char>>;

    closed spec fn view(&self) -> Seq<Seq<char>> {
        texts(self.values@)
    }
}

impl Namespace {
    /// The namespace of no names: the top level of a repository.
    pub(crate) fn top_level() -> (r: Self)
        ensures
            r@ == Seq::<Seq<char>>::empty(),
    {
        let r = Namespace { values: Vec::new() };
        assert(texts(r.values@) =~= Seq::<Seq<char>>::empty());
        r
    }

    /// The namespace named by `namespace`: its pieces between the `/`s.
    pub fn new(namespace: &str) -> (r: Self)
        ensures
            r@ == split_on_slash(namespace@),
    {
        let chars = chars_of(namespace);
        let ghost s = namespace@;
        let mut values: Vec<String> = Vec::new();
        let mut start: usize = 0;
        let mut i: usize = 0;
        assert(s.take(0) =~= Seq::<char>::empty());
        assert(texts(values@).push(s.subrange(0, 0)) =~= split_on_slash(s.take(0)));
        while i < chars.len()
            invariant
                start <= i <= chars@.len(),
                chars@ == s,
                s == namespace@,
                texts(values@).push(s.subrange(start as int, i as int)) == split_on_slash(
                    s.take(i as int),
                ),
            decreases chars@.len() - i,
        {
            proof {
                assert(s.take(i + 1).drop_last() =~= s.take(i as int));
                assert(s.take(i + 1).last() == chars@[i as int]);
            }
            if chars[i] == '/' {
                let piece = namespace.substring_char(start, i).to_owned();
                let ghost prev = values@;
                values.push(piece);
                assert(texts(values@) =~= texts(prev).push(s.subrange(start as int, i as int)));
                start = i + 1;
                assert(s.subrange(start as int, i + 1) =~= Seq::<char>::empty());
            } else {
                assert(s.subrange(start as int, i + 1) =~= s.subrange(start as int, i as int).push(
                    chars@[i as int],
                ));
            }
            i = i + 1;
        }
        assert(s.take(i as int) =~= s);
        let piece = namespace.substring_char(start, i).to_owned();
        let ghost prev = values@;
        values.push(piece);
        assert(texts(values@) =~= texts(prev).push(s.subrange(start as int, i as int)));
        Namespace { values }
    }

    /// The names of the namespace, outermost first.
    pub(crate) fn names(&self) -> (r: &Vec<String>)
        ensures
            texts(r@) == self@,
    {
        &self.values
    }

    /// The namespaces that the reference name `name` lies in: each piece
    /// that follows `refs/namespaces/` and is followed by `/`, left to
    /// right, as the pattern `refs/namespaces/([^/]+)/` finds them.
    pub fn from_reference_name(name: &str) -> (r: Self)
        ensures
            r@ == namespaces_in(name@, 0),
    {
        let s = chars_of(name);
        let p = chars_of("refs/namespaces/");
        proof {
            reveal_strlit("refs/namespaces/");
            assert(p@ =~= namespaces_prefix());
        }
        let n = s.len();
        let mut values: Vec<String> = Vec::new();
        let mut pos: usize = 0;
        while pos < n
            invariant
                n == s@.len(),
                s@ == name@,
                p@ == namespaces_prefix(),
                pos <= n,
                texts(values@) + namespaces_in(s@, pos as int) == namespaces_in(s@, 0),
            decreases n - pos,
        {
            let ghost before = texts(values@);
            if text_at(&s, &p, pos) && pos + 16 < n && s[pos + 16] != '/' {
                let mut k: usize = pos + 17;
                while k < n && s[k] != '/'
                    invariant
                        n == s@.len(),
                        pos + 17 <= k <= n,
                        first_slash_from(s@, pos + 16) == first_slash_from(s@, k as int),
                    decreases n - k,
                {
                    k = k + 1;
                }
                proof {
                    lemma_first_slash_here(s@, k as int);
                }
                if k < n {
                    let piece = name.substring_char(pos + 16, k).to_owned();
                    values.push(piece);
                    proof {
                        assert(texts(values@) =~= before.push(s@.subrange(pos + 16, k as int)));
                        assert(namespaces_in(s@, pos as int) == seq![s@.subrange(pos + 16, k as int)]
                            + namespaces_in(s@, k + 1));
                        assert(texts(values@) + namespaces_in(s@, k + 1) =~= before + namespaces_in(
                            s@,
                            pos as int,
                        ));
                    }
                    pos = k + 1;
                } else {
                    pos = pos + 1;
                }
            } else {
                pos = pos + 1;
            }
        }
        proof {
            assert(texts(values@) + Seq::<Seq<char>>::empty() =~= texts(values@));
        }
        Namespace { values }
    }

    /// The names of the namespace, outermost first, taken out of it.
    pub(crate) fn into_names(self) -> (r: Vec<String>)
        ensures
            texts(r@) == self@,
    {
        self.values
    }

    /// The namespace's names joined by `/`.
    pub fn to_string(&self) -> (r: String)
        ensures
            r@ == join_slash(self@),
    {
        let mut r = String::new();
        let mut i: usize = 0;
        let ghost vs = self@;
        while i < self.values.len()
            invariant
                i <= self.values@.len(),
                vs == self@,
                vs == texts(self.values@),
                r@ == join_slash(vs.take(i as int)),
            decreases self.values@.len() - i,
        {
            proof {
                assert(vs.take(i + 1).drop_last() =~= vs.take(i as int));
                assert(vs.take(i + 1).last() == self.values@[i as int]@);
            }
            if i > 0 {
                let slash = "/";
                proof {
                    reveal_strlit("/");
                }
                r.append(slash);
            } else {
                assert(vs.take(0) =~= Seq::<Seq<char>>::empty());
                assert(vs.take(1) =~= seq![vs[0]]);
            }
            r.append(self.values[i].as_str());
            i = i + 1;
        }
        assert(vs.take(i as int) =~= vs);
        r
    }
}

} // verus!
