//! What a reference's name says about it: whether it names a tag, a branch
//! or a remote branch, and the name with its namespaces removed.
use vstd::prelude::*;
use vstd::string::{StrSliceExecFns, StringExecFns};

use crate::strings::chars_of;
use crate::vcs::git::reference::name::{
    heads_prefix, namespaces_prefix, prefix_base, remotes_prefix, starts_with, strip_prefix,
    strip_prefix_text, tags_prefix, text_starts_with, StripPrefixError,
};
use crate::vcs::git::reference::{
    lemma_namespace_of, lemma_printable_under_refs, namespace_of, namespace_text, printable,
    ref_text, RefView,
};

verus! {

broadcast use vstd::string::group_string_axioms;

/// `s` holds `p` from position `i` on.
pub open spec fn holds_at(s: Seq<char>, p: Seq<char>, i: int) -> bool {
    0 <= i && i + p.len() <= s.len() && s.subrange(i, i + p.len() as int) == p
}

/// A `/` follows position `start` of `s` with no line break before it.
pub open spec fn slash_on_line(s: Seq<char>, start: int) -> bool {
    exists|j: int|
        start <= j < s.len() && s[j] == '/' && forall|k: int| start <= k < j ==> #[trigger] s[k]
            != '\n'
}

/// The name holds `refs/tags/` somewhere: it matches `refs/tags/.*`.
pub open spec fn names_tag(s: Seq<char>) -> bool {
    exists|i: int| holds_at(s, tags_prefix(), i)
}

/// The name holds `refs/remotes/` followed, on the same line, by a `/`: it
/// matches `refs/remotes/.*/.*`.
pub open spec fn names_remote(s: Seq<char>) -> bool {
    exists|i: int| holds_at(s, remotes_prefix(), i) && #[trigger] slash_on_line(s, i + 13)
}

/// The name holds `refs/heads/` somewhere, or names a remote branch: it
/// matches `refs/heads/.*|refs/remotes/.*/.*`.
pub open spec fn names_branch(s: Seq<char>) -> bool {
    (exists|i: int| holds_at(s, heads_prefix(), i)) || names_remote(s)
}

/// A name that begins with `refs/heads/` names a branch.
pub proof fn lemma_heads_names_branch(b: Seq<char>)
    ensures
        names_branch(seq!['r', 'e', 'f', 's', '/', 'h', 'e', 'a', 'd', 's', '/'] + b),
{
    let name = seq!['r', 'e', 'f', 's', '/', 'h', 'e', 'a', 'd', 's', '/'] + b;
    assert(name.subrange(0, 11) =~= heads_prefix());
    assert(holds_at(name, heads_prefix(), 0));
}

/// Whether `s` holds `p` from position `i` on.
pub(crate) fn text_at(s: &Vec<char>, p: &Vec<char>, i: usize) -> (b: bool)
    ensures
        b == holds_at(s@, p@, i as int),
{
    let n = s.len();
    if i > n || p.len() > n - i {
        return false;
    }
    let mut k: usize = 0;
    while k < p.len()
        invariant
            k <= p@.len(),
            n == s@.len(),
            i + p@.len() <= n,
            s@.subrange(i as int, i + k) == p@.take(k as int),
        decreases p@.len() - k,
    {
        if s[i + k] != p[k] {
            assert(s@.subrange(i as int, i + p@.len())[k as int] != p@[k as int]);
            return false;
        }
        assert(s@.subrange(i as int, i + k + 1) =~= s@.subrange(i as int, i + k).push(s@[i + k]));
        assert(p@.take(k + 1) =~= p@.take(k as int).push(p@[k as int]));
        k = k + 1;
    }
    assert(p@.take(k as int) =~= p@);
    true
}

/// Whether some position of `s` holds `p`.
fn holds_somewhere(s: &Vec<char>, p: &Vec<char>) -> (b: bool)
    ensures
        b == exists|i: int| holds_at(s@, p@, i),
{
    let mut i: usize = 0;
    while i < s.len()
        invariant
            i <= s@.len(),
            forall|j: int| 0 <= j < i ==> !holds_at(s@, p@, j),
        decreases s@.len() - i,
    {
        if text_at(s, p, i) {
            return true;
        }
        i = i + 1;
    }
    if text_at(s, p, i) {
        return true;
    }
    assert forall|j: int| !holds_at(s@, p@, j) by {
        if 0 <= j && j < i {
        }
    }
    false
}

/// Whether a `/` follows position `start` of `s` before any line break.
fn slash_follows(s: &Vec<char>, start: usize) -> (b: bool)
    ensures
        b == slash_on_line(s@, start as int),
{
    let mut j: usize = start;
    while j < s.len()
        invariant
            start <= j,
            forall|k: int| start <= k < j ==> s@[k] != '/' && #[trigger] s@[k] != '\n',
        decreases s@.len() - j,
    {
        if s[j] == '/' {
            return true;
        }
        if s[j] == '\n' {
            assert forall|m: int|
                start <= m < s@.len() && s@[m] == '/' implies exists|k: int|
                start <= k < m && #[trigger] s@[k] == '\n' by {
                assert(j < m);
                assert(s@[j as int] == '\n');
            }
            return false;
        }
        j = j + 1;
    }
    false
}

/// Whether the name holds `refs/tags/`. `git2::Reference::is_tag` only
/// looks for that at the start, which a tag inside a namespace does not
/// have. A reference with no name is no tag.
pub fn is_tag(name: Option<&str>) -> (b: bool)
    ensures
        b == (name matches Some(n) && names_tag(n@)),
{
    match name {
        None => false,
        Some(n) => {
            let s = chars_of(n);
            let p = chars_of("refs/tags/");
            proof {
                reveal_strlit("refs/tags/");
                assert(p@ =~= tags_prefix());
            }
            holds_somewhere(&s, &p)
        },
    }
}

/// Whether the text `s` names a remote branch.
fn remote_in(s: &Vec<char>) -> (b: bool)
    ensures
        b == names_remote(s@),
{
    let p = chars_of("refs/remotes/");
    proof {
        reveal_strlit("refs/remotes/");
        assert(p@ =~= remotes_prefix());
    }
    let mut i: usize = 0;
    while i < s.len()
        invariant
            p@ == remotes_prefix(),
            forall|j: int| 0 <= j < i ==> !(holds_at(s@, p@, j) && slash_on_line(s@, j + 13)),
        decreases s@.len() - i,
    {
        if text_at(s, &p, i) && slash_follows(s, i + 13) {
            return true;
        }
        i = i + 1;
    }
    assert forall|j: int| !(holds_at(s@, p@, j) && #[trigger] slash_on_line(s@, j + 13)) by {
        if 0 <= j < i {
        }
    }
    false
}

/// Whether the name holds `refs/remotes/` followed, on its line, by a `/`.
/// A reference with no name is no remote branch.
pub fn is_remote(name: Option<&str>) -> (b: bool)
    ensures
        b == (name matches Some(n) && names_remote(n@)),
{
    match name {
        None => false,
        Some(n) => {
            let s = chars_of(n);
            remote_in(&s)
        },
    }
}

/// Whether the name holds `refs/heads/`, or names a remote branch. A
/// reference with no name is no branch.
pub fn is_branch(name: Option<&str>) -> (b: bool)
    ensures
        b == (name matches Some(n) && names_branch(n@)),
{
    match name {
        None => false,
        Some(n) => {
            let s = chars_of(n);
            let p = chars_of("refs/heads/");
            proof {
                reveal_strlit("refs/heads/");
                assert(p@ =~= heads_prefix());
            }
            holds_somewhere(&s, &p) || remote_in(&s)
        },
    }
}

/// The name with the namespaces at its start removed: while it begins with
/// `refs/namespaces/`, that and the namespace (its pieces before the first
/// piece `refs`) are stripped.
pub open spec fn remove_namespace_text(s: Seq<char>) -> Result<Seq<char>, StripPrefixError>
    decreases s.len(),
{
    if !starts_with(s, namespaces_prefix()) {
        Ok(s)
    } else {
        match strip_prefix_text(s, namespaces_prefix()) {
            Err(e) => Err(e),
            Ok(suffix) => match strip_prefix_text(suffix, namespace_text(suffix)) {
                Err(e) => Err(e),
                Ok(rest) => remove_namespace_text(rest),
            },
        }
    }
}

/// Remove the namespaces at the start of the reference name `reflike`; see
/// `remove_namespace_text`.
pub fn remove_namespace(reflike: &str) -> (r: Result<String, StripPrefixError>)
    ensures
        match r {
            Ok(s) => remove_namespace_text(reflike@) == Ok::<Seq<char>, StripPrefixError>(s@),
            Err(e) => remove_namespace_text(reflike@) == Err::<Seq<char>, StripPrefixError>(e),
        },
    decreases reflike@.len(),
{
    let chars = chars_of(reflike);
    proof {
        reveal_strlit("refs/namespaces/");
        assert("refs/namespaces/"@ =~= namespaces_prefix());
    }
    if !text_starts_with(&chars, "refs/namespaces/") {
        return Ok(reflike.to_owned());
    }
    let suffix = match strip_prefix(reflike, "refs/namespaces/") {
        Ok(s) => s,
        Err(e) => return Err(e),
    };
    let namespace = namespace_of(suffix.as_str());
    let rest = match strip_prefix(suffix.as_str(), namespace.as_str()) {
        Ok(s) => s,
        Err(e) => return Err(e),
    };
    remove_namespace(rest.as_str())
}

/// The reference inside all the namespaces around `r`.
pub open spec fn innermost(r: RefView) -> RefView
    decreases r,
{
    match r {
        RefView::Namespace { reference, .. } => innermost(*reference),
        _ => r,
    }
}

/// No namespace around `r` has a name that ends with `/`.
pub open spec fn namespaces_end_cleanly(r: RefView) -> bool
    decreases r,
{
    match r {
        RefView::Namespace { namespace, reference } => (namespace.len() == 0 || namespace.last()
            != '/') && namespaces_end_cleanly(*reference),
        _ => true,
    }
}

/// Removing the namespaces from the text of a printable reference, none of
/// whose namespaces ends with `/`, gives the text of the reference inside
/// them.
pub proof fn lemma_remove_namespace_of_ref(r: RefView)
    requires
        printable(r),
        namespaces_end_cleanly(r),
    ensures
        remove_namespace_text(ref_text(r)) == Ok::<Seq<char>, StripPrefixError>(
            ref_text(innermost(r)),
        ),
    decreases r,
{
    let s = ref_text(r);
    lemma_printable_under_refs(r);
    match r {
        RefView::Namespace { namespace, reference } => {
            let t = ref_text(*reference);
            lemma_printable_under_refs(*reference);
            lemma_remove_namespace_of_ref(*reference);
            assert(s.take(16) =~= namespaces_prefix());
            assert(prefix_base(namespaces_prefix()) =~= namespaces_prefix());
            let suffix = s.skip(16);
            assert(suffix =~= namespace + seq!['/'] + t);
            lemma_namespace_of(namespace, t);
            assert(prefix_base(namespace) =~= namespace.push('/'));
            assert(t.take(5).len() == 5);
            assert(suffix.take(namespace.len() as int + 1) =~= namespace.push('/'));
            assert(suffix.skip(namespace.len() as int + 1) =~= t);
        },
        _ => {
            assert(!starts_with(s, namespaces_prefix())) by {
                if starts_with(s, namespaces_prefix()) {
                    assert(s.take(16)[5] == namespaces_prefix()[5]);
                    match r {
                        RefView::LocalBranch { name } => {
                            assert(name.take(11)[5] == heads_prefix()[5]);
                        },
                        _ => {},
                    }
                }
            }
        },
    }
}

} // verus!
