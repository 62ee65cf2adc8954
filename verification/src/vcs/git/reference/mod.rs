//! References of a git repository: the structured form of a reference
//! name, how it is read from text and written back, and the globs that
//! select references.
use vstd::prelude::*;
use vstd::string::{StrSliceExecFns, StringExecFns};

use radicle_git_ext::reference::name::Error as NameError;

use crate::file_system::path::{join_slash, lemma_join_split, lemma_split_concat, split_on_slash};
use crate::strings::chars_of;
use crate::vcs::git::object::{texts, Namespace};

use self::name::{
    heads_prefix, lemma_one_level_below, lemma_one_level_plain, lemma_split_refs,
    namespaces_prefix, one_level, one_level_text, prefix_base, qualified, qualified_text,
    ref_format_accepts, ref_like, refs_piece, refs_slash, remotes_prefix, same_text, starts_with,
    strip_prefix, strip_prefix_text, tags_prefix, text_starts_with, StripPrefixError,
};

pub mod glob;
pub mod name;

verus! {

broadcast use vstd::string::group_string_axioms;

/// A structured way of referring to a git reference.
#[derive(Debug, PartialEq, Eq)]
pub enum Ref {
    /// A git tag, found under `.git/refs/tags/`: its one-level name, e.g.
    /// `v1.0.0`.
    Tag { name: String },
    /// A git branch, found under `.git/refs/heads/`: its qualified name,
    /// e.g. `refs/heads/master`.
    LocalBranch { name: String },
    /// A git branch, found under `.git/refs/remotes/`: the remote, e.g.
    /// `origin`, and the one-level name of the branch, e.g. `master`.
    RemoteBranch { remote: String, name: String },
    /// A git namespace, found under `.git/refs/namespaces/`: the name of
    /// the namespace and the reference under it, e.g. the
    /// `refs/remotes/origin/master` of
    /// `refs/namespaces/moi/refs/remotes/origin/master`. Namespaces can be
    /// nested.
    Namespace { namespace: String, reference: Box<Ref> },
}

/// A revision within the repository.
#[derive(Debug, Clone, PartialEq, Eq)]
pub enum Rev {
    /// A reference to a branch or tag.
    Ref(Ref),
    /// A particular commit identifier.
    Oid(git2::Oid),
}

impl From<Ref> for Rev {
    /// The revision a reference names.
    fn from(other: Ref) -> (r: Self) {
        Rev::Ref(other)
    }
}

impl vstd::std_specs::convert::FromSpecImpl<Ref> for Rev {
    open spec fn obeys_from_spec() -> bool {
        true
    }

    open spec fn from_spec(v: Ref) -> Self {
        Rev::Ref(v)
    }
}

impl From<git2::Oid> for Rev {
    /// The revision of a commit id.
    fn from(other: git2::Oid) -> (r: Self) {
        Rev::Oid(other)
    }
}

impl vstd::std_specs::convert::FromSpecImpl<git2::Oid> for Rev {
    open spec fn obeys_from_spec() -> bool {
        true
    }

    open spec fn from_spec(v: git2::Oid) -> Self {
        Rev::Oid(v)
    }
}

/// A reference with its names as character sequences.
pub enum RefView {
    Tag { name: Seq<char> },
    LocalBranch { name: Seq<char> },
    RemoteBranch { remote: Seq<char>, name: Seq<char> },
    Namespace { namespace: Seq<char>, reference: Box<RefView> },
}

/// The names of `r` as character sequences.
pub open spec fn ref_view(r: Ref) -> RefView
    decreases r,
{
    match r {
        Ref::Tag { name } => RefView::Tag { name: name@ },
        Ref::LocalBranch { name } => RefView::LocalBranch { name: name@ },
        Ref::RemoteBranch { remote, name } => RefView::RemoteBranch { remote: remote@, name: name@ },
        Ref::Namespace { namespace, reference } => RefView::Namespace {
            namespace: namespace@,
            reference: Box::new(ref_view(*reference)),
        },
    }
}

impl View for Ref {
    type V = RefView;

    open spec fn view(&self) -> RefView {
        ref_view(*self)
    }
}

/// The text of a reference: `refs/tags/<name>` for a tag, the qualified
/// name for a local branch, `refs/remotes/<remote>/<name>` for a remote
/// branch and `refs/namespaces/<namespace>/<reference>` for a namespace.
pub open spec fn ref_text(r: RefView) -> Seq<char>
    decreases r,
{
    match r {
        RefView::Tag { name } => tags_prefix() + name,
        RefView::LocalBranch { name } => name,
        RefView::RemoteBranch { remote, name } => remotes_prefix() + remote + seq!['/'] + name,
        RefView::Namespace { namespace, reference } => namespaces_prefix() + namespace + seq!['/']
            + ref_text(*reference),
    }
}

/// Why a text could not be read as a reference.
#[derive(Debug)]
pub enum ParseError {
    /// The text is not a reference name.
    Name(NameError),
    /// A directory could not be stripped from the name.
    StripPrefix(StripPrefixError),
    /// A name under `refs/remotes/` has no remote, e.g. `refs/remotes/master`
    /// where `refs/remotes/origin/master` was meant.
    MissingRemote(String),
    /// A name under `refs/namespaces/` has no namespace.
    MissingNamespace,
    /// The name is of no form of reference.
    MalformedRef(String),
}

/// A `ParseError` with its texts as character sequences.
pub enum ParseFailure {
    Name,
    StripPrefix(StripPrefixError),
    MissingRemote(Seq<char>),
    MissingNamespace,
    MalformedRef(Seq<char>),
}

/// `e` with its texts as character sequences.
pub open spec fn failure_of(e: ParseError) -> ParseFailure {
    match e {
        ParseError::Name(_) => ParseFailure::Name,
        ParseError::StripPrefix(k) => ParseFailure::StripPrefix(k),
        ParseError::MissingRemote(s) => ParseFailure::MissingRemote(s@),
        ParseError::MissingNamespace => ParseFailure::MissingNamespace,
        ParseError::MalformedRef(s) => ParseFailure::MalformedRef(s@),
    }
}

/// The outcome of a parse with its texts as character sequences.
pub open spec fn parse_outcome(r: Result<Ref, ParseError>) -> Result<RefView, ParseFailure> {
    match r {
        Ok(x) => Ok(x@),
        Err(e) => Err(failure_of(e)),
    }
}

/// The position of the last `/` of `s`, or -1 when it has none.
pub open spec fn last_slash(s: Seq<char>) -> int
    decreases s.len(),
{
    if s.len() == 0 {
        -1
    } else if s.last() == '/' {
        s.len() - 1
    } else {
        last_slash(s.drop_last())
    }
}

/// The number of pieces before the first piece `refs`.
pub open spec fn first_refs(pieces: Seq<Seq<char>>) -> int
    decreases pieces.len(),
{
    if pieces.len() == 0 || pieces[0] == refs_piece() {
        0
    } else {
        1 + first_refs(pieces.drop_first())
    }
}

/// The namespace at the start of `suffix`: its pieces before the first
/// piece `refs`, joined by `/`.
pub open spec fn namespace_text(suffix: Seq<char>) -> Seq<char> {
    let pieces = split_on_slash(suffix);
    join_slash(pieces.take(first_refs(pieces)))
}

/// Reading the text `s` as a reference. A name that git accepts is a local
/// branch under `refs/heads/`, a tag under `refs/tags/`, a remote branch
/// under `refs/remotes/` (the remote is all before the last `/`, the branch
/// what follows it), or a namespace under `refs/namespaces/` (the namespace
/// is the pieces before the first piece `refs`, and the rest is read as a
/// reference in turn).
pub open spec fn parse_ref(s: Seq<char>) -> Result<RefView, ParseFailure>
    decreases s.len(),
{
    if !ref_format_accepts(s) {
        Err(ParseFailure::Name)
    } else if starts_with(s, heads_prefix()) {
        Ok(RefView::LocalBranch { name: qualified_text(s) })
    } else if starts_with(s, tags_prefix()) {
        Ok(RefView::Tag { name: one_level_text(s) })
    } else if starts_with(s, remotes_prefix()) {
        match strip_prefix_text(s, remotes_prefix()) {
            Err(e) => Err(ParseFailure::StripPrefix(e)),
            Ok(suffix) => {
                let k = last_slash(suffix);
                if k < 0 {
                    Err(ParseFailure::MissingRemote(s))
                } else {
                    let remote = suffix.take(k);
                    match strip_prefix_text(suffix, remote.push('/')) {
                        Err(e) => Err(ParseFailure::StripPrefix(e)),
                        Ok(name) => if ref_format_accepts(remote) {
                            Ok(RefView::RemoteBranch { remote, name: one_level_text(name) })
                        } else {
                            Err(ParseFailure::Name)
                        },
                    }
                }
            },
        }
    } else if starts_with(s, namespaces_prefix()) {
        match strip_prefix_text(s, namespaces_prefix()) {
            Err(e) => Err(ParseFailure::StripPrefix(e)),
            Ok(suffix) => {
                let namespace = namespace_text(suffix);
                match strip_prefix_text(suffix, namespace.push('/')) {
                    Err(e) => Err(ParseFailure::StripPrefix(e)),
                    Ok(rest) => match parse_ref(rest) {
                        Err(e) => Err(e),
                        Ok(r) => Ok(RefView::Namespace { namespace, reference: Box::new(r) }),
                    },
                }
            },
        }
    } else {
        Err(ParseFailure::MalformedRef(s))
    }
}

/// `ns` wrapped around `r`, the first name outermost.
pub open spec fn wrap_namespaces(ns: Seq<Seq<char>>, r: RefView) -> RefView
    decreases ns.len(),
{
    if ns.len() == 0 {
        r
    } else {
        RefView::Namespace {
            namespace: ns[0],
            reference: Box::new(wrap_namespaces(ns.drop_first(), r)),
        }
    }
}

/// The position of the last `/` of `s`: none follows it.
proof fn lemma_last_slash(s: Seq<char>)
    ensures
        last_slash(s) < 0 ==> !s.contains('/'),
        last_slash(s) >= 0 ==> last_slash(s) < s.len() && s[last_slash(s)] == '/'
            && !s.skip(last_slash(s) + 1).contains('/'),
    decreases s.len(),
{
    if s.len() > 0 {
        let init = s.drop_last();
        lemma_last_slash(init);
        if s.last() == '/' {
            assert(s.skip(s.len() as int) =~= Seq::<char>::empty());
        } else {
            let k = last_slash(init);
            if k < 0 {
                assert(!s.contains('/')) by {
                    if s.contains('/') {
                        let j = choose|j: int| 0 <= j < s.len() && s[j] == '/';
                        assert(init[j] == '/');
                    }
                }
            } else {
                let after = s.skip(k + 1);
                let before = init.skip(k + 1);
                assert(!after.contains('/')) by {
                    if after.contains('/') {
                        let j = choose|j: int| 0 <= j < after.len() && #[trigger] after[j] == '/';
                        if j < before.len() {
                            assert(before[j] == '/');
                        } else {
                            assert(s[s.len() - 1] == '/');
                        }
                    }
                }
            }
        }
    }
}

/// In `a`, a `/` and a text `b` with no `/`, the last `/` is the one after
/// `a`.
proof fn lemma_last_slash_concat(a: Seq<char>, b: Seq<char>)
    requires
        !b.contains('/'),
    ensures
        last_slash(a + seq!['/'] + b) == a.len(),
    decreases b.len(),
{
    let s = a + seq!['/'] + b;
    if b.len() == 0 {
        assert(s.last() == '/');
    } else {
        let bi = b.drop_last();
        assert(!bi.contains('/')) by {
            if bi.contains('/') {
                let j = choose|j: int| 0 <= j < bi.len() && bi[j] == '/';
                assert(b[j] == '/');
            }
        }
        lemma_last_slash_concat(a, bi);
        assert(s.drop_last() =~= a + seq!['/'] + bi);
        assert(s.last() == b[b.len() - 1]);
    }
}

/// When the pieces before `i` are not `refs` and the piece at `i` is, or
/// there is none, the first piece `refs` is at `i`.
pub proof fn lemma_first_refs_at(pieces: Seq<Seq<char>>, i: int)
    requires
        0 <= i <= pieces.len(),
        forall|j: int| 0 <= j < i ==> pieces[j] != refs_piece(),
        i == pieces.len() || pieces[i] == refs_piece(),
    ensures
        first_refs(pieces) == i,
    decreases i,
{
    if i > 0 {
        lemma_first_refs_at(pieces.drop_first(), i - 1);
    }
}

/// `s` begins with `p`, so its characters at the positions of `p` are
/// those of `p`.
proof fn lemma_prefix_char(s: Seq<char>, p: Seq<char>, i: int)
    requires
        starts_with(s, p),
        0 <= i < p.len(),
    ensures
        s[i] == p[i],
{
    assert(s.take(p.len() as int)[i] == p[i]);
}

/// The namespace at the start of `suffix`, read piece by piece.
pub(crate) fn namespace_of(suffix: &str) -> (r: String)
    ensures
        r@ == namespace_text(suffix@),
{
    let pieces = Namespace::new(suffix).into_names();
    let ghost ps = split_on_slash(suffix@);
    let mut r = String::new();
    let mut i: usize = 0;
    proof {
        reveal_strlit("refs");
        assert("refs"@ =~= refs_piece());
        assert(ps.take(0) =~= Seq::<Seq<char>>::empty());
    }
    while i < pieces.len()
        invariant
            i <= pieces@.len(),
            texts(pieces@) == ps,
            ps.len() == pieces@.len(),
            r@ == join_slash(ps.take(i as int)),
            forall|j: int| 0 <= j < i ==> ps[j] != refs_piece(),
        ensures
            i <= pieces@.len(),
            r@ == join_slash(ps.take(i as int)),
            forall|j: int| 0 <= j < i ==> ps[j] != refs_piece(),
            i == pieces@.len() || ps[i as int] == refs_piece(),
        decreases pieces@.len() - i,
    {
        assert(ps[i as int] == pieces@[i as int]@);
        proof {
            reveal_strlit("refs");
            assert("refs"@ =~= refs_piece());
        }
        if same_text(pieces[i].as_str(), "refs") {
            break;
        }
        proof {
            assert(ps.take(i + 1).drop_last() =~= ps.take(i as int));
            assert(ps.take(i + 1).last() == pieces@[i as int]@);
        }
        if i > 0 {
            r.append("/");
            proof {
                reveal_strlit("/");
            }
        } else {
            assert(ps.take(1) =~= seq![ps[0]]);
        }
        r.append(pieces[i].as_str());
        i = i + 1;
    }
    proof {
        lemma_first_refs_at(ps, i as int);
    }
    r
}

impl Ref {
    /// Read `reference` as a reference; see `parse_ref` for how.
    pub fn from_str(reference: &str) -> (r: Result<Ref, ParseError>)
        ensures
            parse_outcome(r) == parse_ref(reference@),
        decreases reference@.len(),
    {
        let text = match ref_like(reference) {
            Ok(t) => t,
            Err(e) => return Err(ParseError::Name(e)),
        };
        let chars = chars_of(text.as_str());
        proof {
            reveal_strlit("refs/heads/");
            assert("refs/heads/"@ =~= heads_prefix());
            reveal_strlit("refs/tags/");
            assert("refs/tags/"@ =~= tags_prefix());
            reveal_strlit("refs/remotes/");
            assert("refs/remotes/"@ =~= remotes_prefix());
            reveal_strlit("refs/namespaces/");
            assert("refs/namespaces/"@ =~= namespaces_prefix());
        }
        if text_starts_with(&chars, "refs/heads/") {
            return Ok(Ref::LocalBranch { name: qualified(text.as_str()) });
        }
        if text_starts_with(&chars, "refs/tags/") {
            return Ok(Ref::Tag { name: one_level(text.as_str()) });
        }
        if text_starts_with(&chars, "refs/remotes/") {
            let suffix = match strip_prefix(text.as_str(), "refs/remotes/") {
                Ok(s) => s,
                Err(e) => return Err(ParseError::StripPrefix(e)),
            };
            let sc = chars_of(suffix.as_str());
            let mut k: usize = sc.len();
            assert(sc@.take(k as int) =~= sc@);
            while k > 0 && sc[k - 1] != '/'
                invariant
                    k <= sc@.len(),
                    sc@ == suffix@,
                    last_slash(sc@) == last_slash(sc@.take(k as int)),
                decreases k,
            {
                proof {
                    assert(sc@.take(k as int).drop_last() =~= sc@.take(k - 1));
                }
                k = k - 1;
            }
            proof {
                if k > 0 {
                    assert(sc@.take(k as int).last() == '/');
                } else {
                    assert(sc@.take(0) =~= Seq::<char>::empty());
                }
            }
            if k == 0 {
                return Err(ParseError::MissingRemote(text));
            }
            let remote = suffix.as_str().substring_char(0, k - 1).to_owned();
            let base = suffix.as_str().substring_char(0, k).to_owned();
            proof {
                assert(base@ =~= remote@.push('/'));
            }
            let name = match strip_prefix(suffix.as_str(), base.as_str()) {
                Ok(n) => n,
                Err(e) => return Err(ParseError::StripPrefix(e)),
            };
            let name = one_level(name.as_str());
            let remote = match ref_like(remote.as_str()) {
                Ok(t) => t,
                Err(e) => return Err(ParseError::Name(e)),
            };
            return Ok(Ref::RemoteBranch { remote, name });
        }
        if text_starts_with(&chars, "refs/namespaces/") {
            let suffix = match strip_prefix(text.as_str(), "refs/namespaces/") {
                Ok(s) => s,
                Err(e) => return Err(ParseError::StripPrefix(e)),
            };
            let namespace = namespace_of(suffix.as_str());
            let mut base = String::new();
            base.append(namespace.as_str());
            base.append("/");
            proof {
                reveal_strlit("/");
                assert(base@ =~= namespace@.push('/'));
            }
            let rest = match strip_prefix(suffix.as_str(), base.as_str()) {
                Ok(n) => n,
                Err(e) => return Err(ParseError::StripPrefix(e)),
            };
            let inner = match Ref::from_str(rest.as_str()) {
                Ok(r) => r,
                Err(e) => return Err(e),
            };
            return Ok(Ref::Namespace { namespace, reference: Box::new(inner) });
        }
        Err(ParseError::MalformedRef(text))
    }

    /// The text of the reference; see `ref_text`.
    pub fn to_string(&self) -> (r: String)
        ensures
            r@ == ref_text(self@),
        decreases self,
    {
        proof {
            reveal_strlit("refs/tags/");
            reveal_strlit("refs/remotes/");
            reveal_strlit("refs/namespaces/");
            reveal_strlit("/");
        }
        let mut r = String::new();
        match self {
            Ref::Tag { name } => {
                r.append("refs/tags/");
                r.append(name.as_str());
                assert(r@ =~= tags_prefix() + name@);
            },
            Ref::LocalBranch { name } => {
                r.append(name.as_str());
            },
            Ref::RemoteBranch { remote, name } => {
                r.append("refs/remotes/");
                r.append(remote.as_str());
                r.append("/");
                r.append(name.as_str());
                assert(r@ =~= remotes_prefix() + remote@ + seq!['/'] + name@);
            },
            Ref::Namespace { namespace, reference } => {
                let inner = reference.to_string();
                r.append("refs/namespaces/");
                r.append(namespace.as_str());
                r.append("/");
                r.append(inner.as_str());
                assert(r@ =~= namespaces_prefix() + namespace@ + seq!['/'] + inner@);
            },
        }
        r
    }

    /// Put the reference under the namespace `namespace`: one level of
    /// namespace per name of `namespace`, its first name outermost.
    pub fn namespaced(self, namespace: Namespace) -> (r: Ref)
        ensures
            r@ == wrap_namespaces(namespace@, self@),
    {
        let ghost ns = namespace@;
        let ghost inner = self@;
        let mut names = namespace.into_names();
        let mut r = self;
        assert(ns.skip(ns.len() as int) =~= Seq::<Seq<char>>::empty());
        assert(ns.take(ns.len() as int) =~= ns);
        while names.len() > 0
            invariant
                names@.len() <= ns.len(),
                texts(names@) == ns.take(names@.len() as int),
                r@ == wrap_namespaces(ns.skip(names@.len() as int), inner),
            decreases names@.len(),
        {
            let ghost n: int = names@.len() as int;
            let name = names.pop().unwrap();
            proof {
                assert(texts(names@) =~= ns.take(n - 1));
                assert(name@ == ns[n - 1]) by {
                    assert(ns.take(n)[n - 1] == ns[n - 1]);
                }
                let tail = ns.skip(n - 1);
                assert(tail.drop_first() =~= ns.skip(n));
                assert(tail[0] == ns[n - 1]);
            }
            r = Ref::Namespace { namespace: name, reference: Box::new(r) };
        }
        assert(ns.skip(0) =~= ns);
        r
    }
}

/// A name under `refs/heads/` is its own qualified form.
proof fn lemma_heads_qualified(s: Seq<char>)
    requires
        starts_with(s, heads_prefix()),
    ensures
        qualified_text(s) == s,
{
    assert(s.take(5) =~= s.take(11).take(5));
    assert(heads_prefix().take(5) =~= refs_slash());
}

/// A name under `refs/tags/` is `refs/tags/` and its one-level form.
proof fn lemma_tags_one_level(s: Seq<char>)
    requires
        starts_with(s, tags_prefix()),
    ensures
        tags_prefix() + one_level_text(s) == s,
{
    let rest = s.skip(10);
    let category = seq!['t', 'a', 'g', 's'];
    assert(!category.contains('/')) by {
        if category.contains('/') {
            let j = choose|j: int| 0 <= j < category.len() && category[j] == '/';
        }
    }
    assert(s =~= s.take(10) + rest);
    assert(s =~= refs_slash() + category + seq!['/'] + rest);
    lemma_one_level_below(category, rest);
    assert(tags_prefix() + rest =~= s);
}

/// A name under `refs/remotes/` with a `/` after it is `refs/remotes/`, the
/// remote, a `/` and the one-level form of the rest.
proof fn lemma_remote_text(s: Seq<char>)
    requires
        starts_with(s, remotes_prefix()),
        strip_prefix_text(s, remotes_prefix()) is Ok,
        last_slash(s.skip(13)) >= 0,
    ensures
        ({
            let suffix = s.skip(13);
            let remote = suffix.take(last_slash(suffix));
            strip_prefix_text(suffix, remote.push('/')) matches Ok(name) ==> remotes_prefix()
                + remote + seq!['/'] + one_level_text(name) == s
        }),
{
    assert(prefix_base(remotes_prefix()) =~= remotes_prefix());
    let suffix = s.skip(13);
    assert(s =~= s.take(13) + suffix);
    let k = last_slash(suffix);
    lemma_last_slash(suffix);
    let remote = suffix.take(k);
    assert(prefix_base(remote.push('/')) =~= remote.push('/'));
    let name = suffix.skip(k + 1);
    assert(suffix.take(k + 1) =~= remote.push('/'));
    assert(suffix =~= suffix.take(k + 1) + name);
    lemma_one_level_plain(name);
    assert(remotes_prefix() + remote + seq!['/'] + name =~= s);
}

/// A name under `refs/namespaces/` is `refs/namespaces/`, the namespace, a
/// `/` and the rest.
proof fn lemma_namespace_text(s: Seq<char>)
    requires
        starts_with(s, namespaces_prefix()),
        strip_prefix_text(s, namespaces_prefix()) is Ok,
    ensures
        ({
            let suffix = s.skip(16);
            let namespace = namespace_text(suffix);
            strip_prefix_text(suffix, namespace.push('/')) matches Ok(rest) ==> namespaces_prefix()
                + namespace + seq!['/'] + rest == s
        }),
{
    assert(prefix_base(namespaces_prefix()) =~= namespaces_prefix());
    let suffix = s.skip(16);
    assert(s =~= s.take(16) + suffix);
    let namespace = namespace_text(suffix);
    assert(prefix_base(namespace.push('/')) =~= namespace.push('/'));
    let b: int = namespace.len() as int + 1;
    let rest = suffix.skip(b);
    if strip_prefix_text(suffix, namespace.push('/')) is Ok {
        assert(suffix.take(b) =~= namespace.push('/'));
        assert(suffix =~= suffix.take(b) + rest);
        assert(namespaces_prefix() + namespace + seq!['/'] + rest =~= s);
    }
}

/// Writing out a reference read from a text gives that text back.
pub proof fn lemma_parsed_ref_text(s: Seq<char>)
    ensures
        parse_ref(s) matches Ok(r) ==> ref_text(r) == s,
    decreases s.len(),
{
    if parse_ref(s) is Ok {
        if starts_with(s, heads_prefix()) {
            lemma_heads_qualified(s);
        } else if starts_with(s, tags_prefix()) {
            lemma_tags_one_level(s);
        } else if starts_with(s, remotes_prefix()) {
            lemma_remote_text(s);
        } else if starts_with(s, namespaces_prefix()) {
            lemma_namespace_text(s);
            let suffix = s.skip(16);
            let namespace = namespace_text(suffix);
            let rest = suffix.skip(namespace.len() as int + 1);
            lemma_parsed_ref_text(rest);
        }
    }
}

/// A reference that its own text reads back as: git accepts its text, a
/// local branch's name is under `refs/heads/`, a remote branch's name is
/// not empty and holds no `/` and git accepts its remote, and a namespace
/// has no piece `refs` in its name and holds such a reference.
pub open spec fn printable(r: RefView) -> bool
    decreases r,
{
    ref_format_accepts(ref_text(r)) && match r {
        RefView::Tag { .. } => true,
        RefView::LocalBranch { name } => starts_with(name, heads_prefix()),
        RefView::RemoteBranch { remote, name } => name.len() > 0 && !name.contains('/')
            && ref_format_accepts(remote),
        RefView::Namespace { namespace, reference } => (forall|i: int|
            0 <= i < split_on_slash(namespace).len() ==> #[trigger] split_on_slash(namespace)[i]
                != refs_piece()) && printable(*reference),
    }
}

/// The text of a printable reference is under `refs/`.
pub proof fn lemma_printable_under_refs(r: RefView)
    requires
        printable(r),
    ensures
        starts_with(ref_text(r), refs_slash()),
{
    let t = ref_text(r);
    match r {
        RefView::Tag { name } => {
            assert(t.take(5) =~= refs_slash());
        },
        RefView::LocalBranch { name } => {
            assert(t.take(5) =~= t.take(11).take(5));
            assert(heads_prefix().take(5) =~= refs_slash());
        },
        RefView::RemoteBranch { remote, name } => {
            assert(t.take(5) =~= refs_slash());
        },
        RefView::Namespace { namespace, reference } => {
            assert(t.take(5) =~= refs_slash());
        },
    }
}

/// A text that begins with `p` does not begin with a `q` that differs from
/// `p` at position 5.
proof fn lemma_other_prefix(s: Seq<char>, p: Seq<char>, q: Seq<char>)
    requires
        starts_with(s, p),
        p.len() > 5,
        q.len() > 5,
        p[5] != q[5],
    ensures
        !starts_with(s, q),
{
    lemma_prefix_char(s, p, 5);
    if starts_with(s, q) {
        lemma_prefix_char(s, q, 5);
    }
}

/// The text of a tag reads back as the tag.
proof fn lemma_tag_parses(name: Seq<char>)
    requires
        ref_format_accepts(tags_prefix() + name),
    ensures
        parse_ref(tags_prefix() + name) == Ok::<RefView, ParseFailure>(RefView::Tag { name }),
{
    let s = tags_prefix() + name;
    assert(s.take(10) =~= tags_prefix());
    lemma_other_prefix(s, tags_prefix(), heads_prefix());
    lemma_tags_one_level(s);
    assert(one_level_text(s) =~= (tags_prefix() + one_level_text(s)).skip(10));
    assert(name =~= s.skip(10));
}

/// The text of a remote branch reads back as the remote branch.
proof fn lemma_remote_parses(remote: Seq<char>, name: Seq<char>)
    requires
        ref_format_accepts(remotes_prefix() + remote + seq!['/'] + name),
        ref_format_accepts(remote),
        name.len() > 0,
        !name.contains('/'),
    ensures
        parse_ref(remotes_prefix() + remote + seq!['/'] + name) == Ok::<RefView, ParseFailure>(
            RefView::RemoteBranch { remote, name },
        ),
{
    let s = remotes_prefix() + remote + seq!['/'] + name;
    assert(s.take(13) =~= remotes_prefix());
    lemma_other_prefix(s, remotes_prefix(), heads_prefix());
    lemma_other_prefix(s, remotes_prefix(), tags_prefix());
    assert(prefix_base(remotes_prefix()) =~= remotes_prefix());
    let suffix = s.skip(13);
    assert(suffix =~= remote + seq!['/'] + name);
    lemma_last_slash_concat(remote, name);
    assert(suffix.take(remote.len() as int) =~= remote);
    assert(prefix_base(remote.push('/')) =~= remote.push('/'));
    assert(suffix.take(remote.len() as int + 1) =~= remote.push('/'));
    assert(suffix.skip(remote.len() as int + 1) =~= name);
    lemma_one_level_plain(name);
}

/// Before a `/` and a text under `refs/`, a name with no piece `refs` is
/// read as the namespace.
pub proof fn lemma_namespace_of(namespace: Seq<char>, t: Seq<char>)
    requires
        forall|i: int|
            0 <= i < split_on_slash(namespace).len() ==> #[trigger] split_on_slash(namespace)[i]
                != refs_piece(),
        starts_with(t, refs_slash()),
    ensures
        namespace_text(namespace + seq!['/'] + t) == namespace,
{
    let suffix = namespace + seq!['/'] + t;
    lemma_split_concat(namespace, t);
    lemma_split_refs(t);
    let pn = split_on_slash(namespace);
    let ps = split_on_slash(suffix);
    assert(ps == pn + split_on_slash(t));
    assert forall|j: int| 0 <= j < pn.len() implies ps[j] != refs_piece() by {
        assert(ps[j] == pn[j]);
    }
    assert(ps[pn.len() as int] == refs_piece());
    lemma_first_refs_at(ps, pn.len() as int);
    assert(ps.take(pn.len() as int) =~= pn);
    lemma_join_split(namespace);
}

/// The text of a namespace whose name has no piece `refs`, around a
/// reference whose text is under `refs/`, reads back as the namespace
/// around what that text reads back as.
proof fn lemma_namespace_parses(namespace: Seq<char>, t: Seq<char>)
    requires
        ref_format_accepts(namespaces_prefix() + namespace + seq!['/'] + t),
        forall|i: int|
            0 <= i < split_on_slash(namespace).len() ==> #[trigger] split_on_slash(namespace)[i]
                != refs_piece(),
        starts_with(t, refs_slash()),
    ensures
        ({
            let s = namespaces_prefix() + namespace + seq!['/'] + t;
            parse_ref(s) == match parse_ref(t) {
                Err(e) => Err(e),
                Ok(r) => Ok::<RefView, ParseFailure>(
                    RefView::Namespace { namespace, reference: Box::new(r) },
                ),
            }
        }),
{
    let s = namespaces_prefix() + namespace + seq!['/'] + t;
    assert(s.take(16) =~= namespaces_prefix());
    lemma_other_prefix(s, namespaces_prefix(), heads_prefix());
    lemma_other_prefix(s, namespaces_prefix(), tags_prefix());
    lemma_other_prefix(s, namespaces_prefix(), remotes_prefix());
    assert(prefix_base(namespaces_prefix()) =~= namespaces_prefix());
    let suffix = s.skip(16);
    assert(suffix =~= namespace + seq!['/'] + t);
    lemma_namespace_of(namespace, t);
    assert(prefix_base(namespace.push('/')) =~= namespace.push('/'));
    assert(suffix.take(namespace.len() as int + 1) =~= namespace.push('/'));
    assert(suffix.skip(namespace.len() as int + 1) =~= t);
}

/// Reading the text of a printable reference gives the reference back.
pub proof fn lemma_ref_text_parses(r: RefView)
    requires
        printable(r),
    ensures
        parse_ref(ref_text(r)) == Ok::<RefView, ParseFailure>(r),
    decreases r,
{
    match r {
        RefView::Tag { name } => {
            lemma_tag_parses(name);
        },
        RefView::LocalBranch { name } => {
            lemma_heads_qualified(name);
        },
        RefView::RemoteBranch { remote, name } => {
            lemma_remote_parses(remote, name);
        },
        RefView::Namespace { namespace, reference } => {
            lemma_ref_text_parses(*reference);
            lemma_printable_under_refs(*reference);
            lemma_namespace_parses(namespace, ref_text(*reference));
        },
    }
}

impl Clone for Ref {
    fn clone(&self) -> (r: Self)
        ensures
            r@ == self@,
        decreases self,
    {
        match self {
            Ref::Tag { name } => Ref::Tag { name: name.clone() },
            Ref::LocalBranch { name } => Ref::LocalBranch { name: name.clone() },
            Ref::RemoteBranch { remote, name } => Ref::RemoteBranch {
                remote: remote.clone(),
                name: name.clone(),
            },
            Ref::Namespace { namespace, reference } => {
                let inner: Ref = (&**reference).clone();
                Ref::Namespace { namespace: namespace.clone(), reference: Box::new(inner) }
            },
        }
    }
}

impl core::str::FromStr for Ref {
    type Err = ParseError;

    /// Read `reference` as a reference; see `parse_ref`.
    fn from_str(reference: &str) -> (r: Result<Self, Self::Err>)
        ensures
            parse_outcome(r) == parse_ref(reference@),
    {
        Ref::from_str(reference)
    }
}

} // verus!
