//! Reference names: git's check of a name, and the one-level, qualified and
//! prefix-stripped forms of a name.
use vstd::prelude::*;
use vstd::string::{StrSliceExecFns, StringExecFns};

use radicle_git_ext::reference::name::Error as NameError;
use radicle_git_ext::reference::name::RefLike;

use crate::file_system::path::{
    join_slash, lemma_join_split, lemma_split_concat, lemma_split_single, split_on_slash,
};
use crate::strings::chars_of;

verus! {

broadcast use vstd::string::group_string_axioms;

/// Whether git's reference-name rules accept `name`, with one-level names
/// allowed and patterns refused.
pub uninterp spec fn ref_format_accepts(name: Seq<char>) -> bool;

/// The error of radicle-git-ext when a text is no reference name.
#[verifier::external_type_specification]
#[verifier::external_body]
pub struct ExRefNameError(NameError);

/// `RefLike::try_from(&str)` of radicle-git-ext: it runs git's check of
/// reference names on `name` (one-level names allowed, patterns refused)
/// and, when the check passes, holds the same text. Which texts pass is not
/// stated here: the check is named by `ref_format_accepts`.
#[verifier::external_body]
pub(crate) fn ref_like(name: &str) -> (r: Result<String, NameError>)
    ensures
        r is Ok <==> ref_format_accepts(name@),
        r matches Ok(text) ==> text@ == name@,
{
    RefLike::try_from(name).map(String::from)
}

/// The text `"refs"`.
pub open spec fn refs_piece() -> Seq<char> {
    seq!['r', 'e', 'f', 's']
}

/// The text `"refs/"`.
pub open spec fn refs_slash() -> Seq<char> {
    refs_piece().push('/')
}

/// The text `"refs/heads/"`.
pub open spec fn heads_prefix() -> Seq<char> {
    refs_slash() + seq!['h', 'e', 'a', 'd', 's', '/']
}

/// The text `"refs/tags/"`.
pub open spec fn tags_prefix() -> Seq<char> {
    refs_slash() + seq!['t', 'a', 'g', 's', '/']
}

/// The text `"refs/remotes/"`.
pub open spec fn remotes_prefix() -> Seq<char> {
    refs_slash() + seq!['r', 'e', 'm', 'o', 't', 'e', 's', '/']
}

/// The text `"refs/namespaces/"`.
pub open spec fn namespaces_prefix() -> Seq<char> {
    refs_slash() + seq!['n', 'a', 'm', 'e', 's', 'p', 'a', 'c', 'e', 's', '/']
}

/// `s` begins with `p`.
pub open spec fn starts_with(s: Seq<char>, p: Seq<char>) -> bool {
    p.len() <= s.len() && s.take(p.len() as int) == p
}

/// The one-level form of a name: a name under `refs/` loses its first two
/// pieces (`refs` and the category), any other name stays as it is.
pub open spec fn one_level_text(name: Seq<char>) -> Seq<char> {
    if starts_with(name, refs_slash()) {
        join_slash(split_on_slash(name).skip(2))
    } else {
        name
    }
}

/// The qualified form of a name: a name under `refs/` stays as it is, any
/// other name is taken as a branch under `refs/heads/`.
pub open spec fn qualified_text(name: Seq<char>) -> Seq<char> {
    if starts_with(name, refs_slash()) {
        name
    } else {
        heads_prefix() + name
    }
}

/// Why a prefix could not be stripped from a name.
#[derive(Debug, Clone, Copy, PartialEq, Eq)]
pub enum StripPrefixError {
    /// The prefix is the whole name.
    ImproperPrefix,
    /// The name does not begin with the prefix.
    NotPrefix,
}

/// `base` with one trailing `/` removed, if it has one, and a `/` added.
pub open spec fn prefix_base(base: Seq<char>) -> Seq<char> {
    if base.len() > 0 && base.last() == '/' {
        base
    } else {
        base.push('/')
    }
}

/// The part of `name` after the directory `base`: `name` must begin with
/// `base` followed by `/`, and something must be left.
pub open spec fn strip_prefix_text(name: Seq<char>, base: Seq<char>) -> Result<
    Seq<char>,
    StripPrefixError,
> {
    let b = prefix_base(base);
    if starts_with(name, b) {
        if name.len() == b.len() {
            Err(StripPrefixError::ImproperPrefix)
        } else {
            Ok(name.skip(b.len() as int))
        }
    } else {
        Err(StripPrefixError::NotPrefix)
    }
}

/// The text of a stripped name, or why it could not be stripped.
pub open spec fn stripped(r: Result<String, StripPrefixError>) -> Result<
    Seq<char>,
    StripPrefixError,
> {
    match r {
        Ok(s) => Ok(s@),
        Err(e) => Err(e),
    }
}

/// Whether the characters `s` begin with the text `p`.
pub(crate) fn text_starts_with(s: &Vec<char>, p: &str) -> (b: bool)
    ensures
        b == starts_with(s@, p@),
{
    let pc = chars_of(p);
    if pc.len() > s.len() {
        return false;
    }
    let mut i: usize = 0;
    while i < pc.len()
        invariant
            i <= pc@.len(),
            pc@.len() <= s@.len(),
            pc@ == p@,
            s@.take(i as int) == pc@.take(i as int),
        decreases pc@.len() - i,
    {
        if s[i] != pc[i] {
            assert(s@.take(pc@.len() as int)[i as int] != pc@[i as int]);
            return false;
        }
        assert(s@.take(i + 1) =~= s@.take(i as int).push(s@[i as int]));
        assert(pc@.take(i + 1) =~= pc@.take(i as int).push(pc@[i as int]));
        i = i + 1;
    }
    assert(pc@.take(i as int) =~= pc@);
    true
}

/// Whether `a` and `b` hold the same characters.
pub(crate) fn same_text(a: &str, b: &str) -> (r: bool)
    ensures
        r == (a@ == b@),
{
    let ac = chars_of(a);
    if ac.len() != b.unicode_len() {
        return false;
    }
    let r = text_starts_with(&ac, b);
    assert(ac@.take(ac@.len() as int) =~= ac@);
    r
}

/// Strip the directory `base` from `name`: like `RefLike::strip_prefix` of
/// radicle-git-ext, one trailing `/` of `base` is dropped and a `/` added,
/// and `name` must begin with that and hold more.
pub fn strip_prefix(name: &str, base: &str) -> (r: Result<String, StripPrefixError>)
    ensures
        stripped(r) == strip_prefix_text(name@, base@),
{
    let mut b = chars_of(base);
    if b.len() == 0 || b[b.len() - 1] != '/' {
        b.push('/');
    }
    assert(b@ == prefix_base(base@));
    let n = chars_of(name);
    if b.len() > n.len() {
        return Err(StripPrefixError::NotPrefix);
    }
    let mut i: usize = 0;
    while i < b.len()
        invariant
            i <= b@.len(),
            b@.len() <= n@.len(),
            n@ == name@,
            b@ == prefix_base(base@),
            n@.take(i as int) == b@.take(i as int),
        decreases b@.len() - i,
    {
        if n[i] != b[i] {
            assert(n@.take(b@.len() as int)[i as int] != b@[i as int]);
            return Err(StripPrefixError::NotPrefix);
        }
        assert(n@.take(i + 1) =~= n@.take(i as int).push(n@[i as int]));
        assert(b@.take(i + 1) =~= b@.take(i as int).push(b@[i as int]));
        i = i + 1;
    }
    assert(b@.take(i as int) =~= b@);
    if n.len() == b.len() {
        return Err(StripPrefixError::ImproperPrefix);
    }
    let rest = name.substring_char(b.len(), n.len()).to_owned();
    assert(rest@ =~= name@.skip(b@.len() as int));
    Ok(rest)
}

/// `name` begins with `refs/`, and its first piece is `refs`.
pub proof fn lemma_split_refs(name: Seq<char>)
    requires
        starts_with(name, refs_slash()),
    ensures
        name =~= refs_piece() + seq!['/'] + name.skip(5),
        split_on_slash(name) == seq![refs_piece()] + split_on_slash(name.skip(5)),
{
    assert(name =~= name.take(5) + name.skip(5));
    assert(name.take(5) =~= refs_slash());
    assert(name =~= refs_piece() + seq!['/'] + name.skip(5));
    assert(!refs_piece().contains('/')) by {
        if refs_piece().contains('/') {
            let k = choose|k: int| 0 <= k < 4 && refs_piece()[k] == '/';
        }
    }
    lemma_split_single(refs_piece());
    lemma_split_concat(refs_piece(), name.skip(5));
}

/// Below `refs/` and a category, the one-level form of a name is what
/// follows the category.
pub proof fn lemma_one_level_below(category: Seq<char>, rest: Seq<char>)
    requires
        !category.contains('/'),
    ensures
        one_level_text(refs_slash() + category + seq!['/'] + rest) == rest,
{
    let s = refs_slash() + category + seq!['/'] + rest;
    assert(s.take(5) =~= refs_slash());
    lemma_split_refs(s);
    assert(s.skip(5) =~= category + seq!['/'] + rest);
    lemma_split_single(category);
    lemma_split_concat(category, rest);
    assert(split_on_slash(s).skip(2) =~= split_on_slash(rest));
    lemma_join_split(rest);
}

/// A name with no `/` is its own one-level form.
pub proof fn lemma_one_level_plain(name: Seq<char>)
    requires
        !name.contains('/'),
    ensures
        one_level_text(name) == name,
{
    if starts_with(name, refs_slash()) {
        assert(name.take(5)[4] == '/');
        assert(name[4] == '/');
    }
}

/// A name under `refs/` with no `/` after it has the empty one-level form.
proof fn lemma_one_level_category_only(name: Seq<char>)
    requires
        starts_with(name, refs_slash()),
        forall|j: int| 5 <= j < name.len() ==> name[j] != '/',
    ensures
        one_level_text(name) == Seq::<char>::empty(),
{
    lemma_split_refs(name);
    let s1 = name.skip(5);
    assert(!s1.contains('/')) by {
        if s1.contains('/') {
            let k = choose|k: int| 0 <= k < s1.len() && s1[k] == '/';
            assert(name[k + 5] == '/');
        }
    }
    lemma_split_single(s1);
    assert(split_on_slash(name) =~= seq![refs_piece(), s1]);
    assert(split_on_slash(name).skip(2) =~= Seq::<Seq<char>>::empty());
}

/// A name under `refs/` whose first `/` after it stands at `i` has as its
/// one-level form what follows that `/`.
proof fn lemma_one_level_after(name: Seq<char>, i: int)
    requires
        starts_with(name, refs_slash()),
        5 <= i < name.len(),
        name[i] == '/',
        forall|j: int| 5 <= j < i ==> name[j] != '/',
    ensures
        one_level_text(name) == name.skip(i + 1),
{
    let c = name.subrange(5, i);
    assert(!c.contains('/')) by {
        if c.contains('/') {
            let k = choose|k: int| 0 <= k < c.len() && c[k] == '/';
            assert(name[k + 5] == '/');
        }
    }
    assert(name.take(5) =~= refs_slash());
    assert(name =~= refs_slash() + c + seq!['/'] + name.skip(i + 1));
    lemma_one_level_below(c, name.skip(i + 1));
}

/// The one-level form of `name`: like `OneLevel::from` of radicle-git-ext,
/// a name under `refs/` loses its first two pieces.
pub fn one_level(name: &str) -> (r: String)
    ensures
        r@ == one_level_text(name@),
{
    let n = chars_of(name);
    proof {
        reveal_strlit("refs/");
        assert("refs/"@ =~= refs_slash());
    }
    if !text_starts_with(&n, "refs/") {
        return name.to_owned();
    }
    let mut i: usize = 5;
    while i < n.len() && n[i] != '/'
        invariant
            5 <= i <= n@.len(),
            n@ == name@,
            forall|j: int| 5 <= j < i ==> n@[j] != '/',
        decreases n@.len() - i,
    {
        i = i + 1;
    }
    if i == n.len() {
        proof {
            lemma_one_level_category_only(name@);
        }
        String::new()
    } else {
        let r = name.substring_char(i + 1, n.len()).to_owned();
        proof {
            lemma_one_level_after(name@, i as int);
            assert(r@ =~= name@.skip(i + 1));
        }
        r
    }
}

/// The qualified form of `name`: like `Qualified::from` of radicle-git-ext,
/// a name not under `refs/` is taken as a branch under `refs/heads/`.
pub fn qualified(name: &str) -> (r: String)
    ensures
        r@ == qualified_text(name@),
{
    let n = chars_of(name);
    proof {
        reveal_strlit("refs/");
        assert("refs/"@ =~= refs_slash());
        reveal_strlit("refs/heads/");
        assert("refs/heads/"@ =~= heads_prefix());
    }
    if text_starts_with(&n, "refs/") {
        name.to_owned()
    } else {
        let mut r = String::new();
        r.append("refs/heads/");
        r.append(name);
        r
    }
}

} // verus!
