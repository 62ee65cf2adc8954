//! Tags: light-weight ones, which are a name for a commit, and annotated
//! ones, which carry a tagger and a message.
use vstd::prelude::*;

use git2::Error as GitError;
use std::str::Utf8Error;
use radicle_git_ext::reference::name::Error as NameError;

use crate::vcs::git::ext::{holds_at, is_tag, names_tag, remove_namespace, remove_namespace_text};
use crate::vcs::git::object::Author;
use crate::vcs::git::reference::name::{
    lemma_one_level_below, namespaces_prefix, one_level, one_level_text, ref_format_accepts, ref_like,
    refs_slash, starts_with, tags_prefix, StripPrefixError,
};

verus! {

/// An error of git itself.
#[verifier::external_type_specification]
#[verifier::external_body]
pub struct ExGitError(GitError);

/// Text that is not UTF-8.
#[verifier::external_type_specification]
#[verifier::external_body]
pub struct ExUtf8Error(Utf8Error);

/// Why a tag could not be read.
#[derive(Debug)]
pub enum Error {
    /// Git failed.
    Git(GitError),
    /// The name is not a reference name.
    Name(NameError),
    /// The reference is not a tag: a branch or a commit was given.
    NotTag(String),
    /// The namespace could not be removed from the name.
    Strip(StripPrefixError),
    /// A text of the tag is not UTF-8.
    Utf8(Utf8Error),
}

/// An `Error` that a tag's name was refused for, with its text as
/// characters.
pub enum TagFailure {
    Name,
    NotTag(Seq<char>),
    Strip(StripPrefixError),
}

/// The static information of a git tag.
#[derive(Debug, Clone, PartialEq, Eq, PartialOrd, Ord)]
pub enum Tag {
    /// A light-weight git tag.
    Light {
        /// The object id of the tag.
        id: git2::Oid,
        /// The one-level name of the tag.
        name: String,
    },
    /// An annotated git tag.
    Annotated {
        /// The object id of the tag.
        id: git2::Oid,
        /// The one-level name of the tag.
        name: String,
        /// The author of the tag.
        tagger: Option<Author>,
        /// The message of the tag.
        message: Option<String>,
    },
}

/// The name of a tag, whatever its kind.
pub open spec fn tag_name(t: Tag) -> Seq<char> {
    match t {
        Tag::Light { name, .. } => name@,
        Tag::Annotated { name, .. } => name@,
    }
}

/// The object id of a tag, whatever its kind.
pub open spec fn tag_id(t: Tag) -> git2::Oid {
    match t {
        Tag::Light { id, .. } => id,
        Tag::Annotated { id, .. } => id,
    }
}

/// The name of the tag that the reference named `name` is: the name must
/// be a reference name, its namespaces are removed, and the whole name must
/// name a tag.
pub open spec fn tag_reference_name(name: Seq<char>) -> Result<Seq<char>, TagFailure> {
    if !ref_format_accepts(name) {
        Err(TagFailure::Name)
    } else {
        match remove_namespace_text(name) {
            Err(e) => Err(TagFailure::Strip(e)),
            Ok(n) => if names_tag(name) {
                Ok(n)
            } else {
                Err(TagFailure::NotTag(n))
            },
        }
    }
}

/// The text `refs/tags/`.
pub open spec fn tags_dir() -> Seq<char> {
    seq!['r', 'e', 'f', 's', '/', 't', 'a', 'g', 's', '/']
}

/// The text `refs/namespaces/`.
pub open spec fn namespaces_dir() -> Seq<char> {
    seq!['r', 'e', 'f', 's', '/', 'n', 'a', 'm', 'e', 's', 'p', 'a', 'c', 'e', 's', '/']
}

/// A name under `refs/tags/` lies in no namespace and holds `refs/tags/`.
proof fn lemma_tags_dir_plain(t: Seq<char>)
    ensures
        remove_namespace_text(tags_dir() + t) == Ok::<Seq<char>, StripPrefixError>(tags_dir() + t),
        names_tag(tags_dir() + t),
{
    let name = tags_dir() + t;
    assert(tags_prefix() =~= tags_dir());
    assert(name.subrange(0, 10) =~= tags_dir());
    assert(holds_at(name, tags_prefix(), 0));
    if starts_with(name, namespaces_prefix()) {
        assert(name.take(16)[5] == namespaces_prefix()[5]);
        assert(name[5] == tags_dir()[5]);
    }
}

/// A tag name read from `refs/tags/` and a name is that name.
proof fn lemma_tags_one_level(t: Seq<char>)
    ensures
        one_level_text(tags_dir() + t) == t,
{
    let tags = seq!['t', 'a', 'g', 's'];
    assert(!tags.contains('/')) by {
        if tags.contains('/') {
            let k = choose|k: int| 0 <= k < tags.len() && tags[k] == '/';
        }
    }
    assert(tags_dir() + t =~= refs_slash() + tags + seq!['/'] + t);
    lemma_one_level_below(tags, t);
}

/// A name under `refs/tags/` that git accepts names a tag, under its whole
/// name; and a tag made from it is named by what follows `refs/tags/`.
pub proof fn lemma_tag_name(t: Seq<char>)
    requires
        ref_format_accepts(tags_dir() + t),
    ensures
        tag_reference_name(tags_dir() + t) == Ok::<Seq<char>, TagFailure>(tags_dir() + t),
        one_level_text(tags_dir() + t) == t,
{
    lemma_tags_dir_plain(t);
    lemma_tags_one_level(t);
}

/// A name that git accepts, outside any namespace, that holds no
/// `refs/tags/` names no tag: the failure carries the name.
pub proof fn lemma_not_tag_name(name: Seq<char>)
    requires
        ref_format_accepts(name),
        !(namespaces_dir().len() <= name.len() && name.take(16) == namespaces_dir()),
        forall|i: int| 0 <= i && i + 10 <= name.len() ==> #[trigger] name.subrange(i, i + 10) != tags_dir(),
    ensures
        tag_reference_name(name) == Err::<Seq<char>, TagFailure>(TagFailure::NotTag(name)),
{
    assert(namespaces_prefix() =~= namespaces_dir());
    assert(tags_prefix() =~= tags_dir());
    assert(!names_tag(name)) by {
        if names_tag(name) {
            let i = choose|i: int| holds_at(name, tags_prefix(), i);
            assert(name.subrange(i, i + 10) == tags_dir());
        }
    }
}

/// The outcome of `Tag::reference_name` with its texts as characters.
pub open spec fn named(r: Result<String, Error>) -> Result<Seq<char>, TagFailure> {
    match r {
        Ok(n) => Ok(n@),
        Err(Error::NotTag(n)) => Err(TagFailure::NotTag(n@)),
        Err(Error::Strip(e)) => Err(TagFailure::Strip(e)),
        Err(_) => Err(TagFailure::Name),
    }
}

impl Tag {
    /// A light-weight tag of the object `id`, named by the one-level form
    /// of `name`.
    pub fn light(id: git2::Oid, name: &str) -> (r: Tag)
        ensures
            r matches Tag::Light { id: i, name: n } && i == id && n@ == one_level_text(name@),
    {
        Tag::Light { id, name: one_level(name) }
    }

    /// An annotated tag of the object `id`, named by the one-level form of
    /// `name`, with its tagger and message.
    pub fn annotated(id: git2::Oid, name: &str, tagger: Option<Author>, message: Option<String>) -> (r: Tag)
        ensures
            r matches Tag::Annotated { id: i, name: n, tagger: t, message: m } && i == id && n@
                == one_level_text(name@) && t == tagger && m == message,
    {
        Tag::Annotated { id, name: one_level(name), tagger, message }
    }

    /// The annotated tag of a git tag object, from what was read of it: its
    /// id, its name, which must be a reference name, and its tagger and
    /// message, whose reading may have failed. The name is checked first,
    /// then the tagger, then the message.
    pub fn from_object(
        id: git2::Oid,
        name: &str,
        tagger: Result<Option<Author>, Utf8Error>,
        message: Result<Option<String>, Utf8Error>,
    ) -> (r: Result<Tag, Error>)
        ensures
            !ref_format_accepts(name@) ==> r matches Err(Error::Name(_)),
            ref_format_accepts(name@) ==> match (tagger, message) {
                (Err(e), _) => r == Err::<Tag, Error>(Error::Utf8(e)),
                (Ok(_), Err(e)) => r == Err::<Tag, Error>(Error::Utf8(e)),
                (Ok(t), Ok(m)) => r matches Ok(Tag::Annotated { id: i, name: n, tagger: g, message: x })
                    && i == id && n@ == one_level_text(name@) && g == t && x == m,
            },
    {
        let text = match ref_like(name) {
            Ok(t) => t,
            Err(e) => return Err(Error::Name(e)),
        };
        let tagger = match tagger {
            Ok(t) => t,
            Err(e) => return Err(Error::Utf8(e)),
        };
        let message = match message {
            Ok(m) => m,
            Err(e) => return Err(Error::Utf8(e)),
        };
        Ok(Tag::annotated(id, text.as_str(), tagger, message))
    }

    /// The object id of the tag, whatever its kind.
    pub fn id(&self) -> (r: git2::Oid)
        ensures
            r == tag_id(*self),
    {
        match self {
            Tag::Light { id, .. } => *id,
            Tag::Annotated { id, .. } => *id,
        }
    }

    /// The name of the tag, whatever its kind.
    pub fn name(&self) -> (r: String)
        ensures
            r@ == tag_name(*self),
    {
        match self {
            Tag::Light { name, .. } => name.clone(),
            Tag::Annotated { name, .. } => name.clone(),
        }
    }

    /// The name of the tag that the reference named `name` is; see
    /// `tag_reference_name`.
    pub fn reference_name(name: &str) -> (r: Result<String, Error>)
        ensures
            named(r) == tag_reference_name(name@),
            r matches Err(e) ==> e is Name || e is NotTag || e is Strip,
    {
        let text = match ref_like(name) {
            Ok(t) => t,
            Err(e) => return Err(Error::Name(e)),
        };
        let stripped = match remove_namespace(text.as_str()) {
            Ok(n) => n,
            Err(e) => return Err(Error::Strip(e)),
        };
        if !is_tag(Some(name)) {
            return Err(Error::NotTag(stripped));
        }
        Ok(stripped)
    }
}

} // verus!
