//! Histories of artifacts (commits in git, patches in Pijul) from which a
//! directory view is derived, and the parts of a git view that do not need
//! a repository.
use vstd::prelude::*;
use vstd::std_specs::cmp::PartialEqSpec;

use crate::nonempty::NonEmpty;

pub mod git;

verus! {

/// A non-empty bag of artifacts which are used to derive a `Directory`
/// view. Examples of artifacts would be commits in Git or patches in Pijul.
#[derive(Clone)]
pub struct History<A>(pub NonEmpty<A>);

/// A `Repo` is a bag of `History`s. If the bag is empty then the `Repo` is
/// in its initial state.
pub struct Repo<A>(pub Vec<History<A>>);

/// Some answer of `id_of` on `a` equals `identifier`.
pub open spec fn id_matches<A, Identifier: PartialEq, F: Fn(&A) -> &Identifier>(
    id_of: F,
    identifier: Identifier,
    a: A,
) -> bool {
    exists|id: &Identifier| #[trigger] call_ensures(id_of, (&a,), id) && identifier.eq_spec(id)
}

/// Some answer of `id_of` on `a` differs from `identifier`.
pub open spec fn id_differs<A, Identifier: PartialEq, F: Fn(&A) -> &Identifier>(
    id_of: F,
    identifier: Identifier,
    a: A,
) -> bool {
    exists|id: &Identifier| #[trigger] call_ensures(id_of, (&a,), id) && !identifier.eq_spec(id)
}

/// Searching `s` in order for an artifact whose id equals `identifier` can
/// stop at position `k`: the ids before it differ and its id matches.
pub open spec fn found_at<A, Identifier: PartialEq, F: Fn(&A) -> &Identifier>(
    s: Seq<A>,
    id_of: F,
    identifier: Identifier,
    k: int,
) -> bool {
    &&& 0 <= k < s.len()
    &&& id_matches(id_of, identifier, s[k])
    &&& forall|i: int| 0 <= i < k ==> #[trigger] id_differs(id_of, identifier, s[i])
}

/// Searching `s` for an artifact whose id equals `identifier` can find
/// none: every id differs.
pub open spec fn found_none<A, Identifier: PartialEq, F: Fn(&A) -> &Identifier>(
    s: Seq<A>,
    id_of: F,
    identifier: Identifier,
) -> bool {
    forall|i: int| 0 <= i < s.len() ==> #[trigger] id_differs(id_of, identifier, s[i])
}

/// The elements of `s` whose flag in `keep` is set, in order.
pub open spec fn kept<T>(s: Seq<T>, keep: Seq<bool>) -> Seq<T>
    decreases s.len(),
{
    if s.len() == 0 || keep.len() == 0 {
        Seq::empty()
    } else if keep.last() {
        kept(s.drop_last(), keep.drop_last()).push(s.last())
    } else {
        kept(s.drop_last(), keep.drop_last())
    }
}

/// `id_of` gives at most one identifier for each artifact.
pub open spec fn deterministic<A, Identifier, F: Fn(&A) -> &Identifier>(id_of: F) -> bool {
    forall|a: A, x: &Identifier, y: &Identifier|
        #[trigger] call_ensures(id_of, (&a,), x) && #[trigger] call_ensures(id_of, (&a,), y) ==> x == y
}

/// When `id_of` gives one identifier per artifact, an artifact found at `k`
/// is the first whose identifier is the one sought: it matches, and none
/// before it does; and when none is found, no artifact matches.
pub proof fn lemma_found_first<A, Identifier: PartialEq, F: Fn(&A) -> &Identifier>(
    s: Seq<A>,
    id_of: F,
    identifier: Identifier,
    k: int,
)
    requires
        deterministic(id_of),
    ensures
        found_at(s, id_of, identifier, k) ==> id_matches(id_of, identifier, s[k]) && forall|i: int|
            0 <= i < k ==> !id_matches(id_of, identifier, #[trigger] s[i]),
        found_none(s, id_of, identifier) ==> forall|i: int|
            0 <= i < s.len() ==> !id_matches(id_of, identifier, #[trigger] s[i]),
{
    assert forall|a: A| #[trigger] id_differs(id_of, identifier, a) implies !id_matches(
        id_of,
        identifier,
        a,
    ) by {
        if id_matches(id_of, identifier, a) {
            let x = choose|x: &Identifier| #[trigger] call_ensures(id_of, (&a,), x) && !identifier.eq_spec(x);
            let y = choose|y: &Identifier| #[trigger] call_ensures(id_of, (&a,), y) && identifier.eq_spec(y);
            assert(x == y);
        }
    }
    if found_at(s, id_of, identifier, k) {
        assert forall|i: int| 0 <= i < k implies !id_matches(id_of, identifier, #[trigger] s[i]) by {
            assert(id_differs(id_of, identifier, s[i]));
        }
    }
    if found_none(s, id_of, identifier) {
        assert forall|i: int| 0 <= i < s.len() implies !id_matches(id_of, identifier, #[trigger] s[i]) by {
            assert(id_differs(id_of, identifier, s[i]));
        }
    }
}

/// Keeping the elements of `s` marked in `keep` keeps exactly the marked
/// elements, in order: the pairs of each element and its mark, filtered
/// by the mark, without the marks.
pub proof fn lemma_kept<T>(s: Seq<T>, keep: Seq<bool>)
    requires
        keep.len() == s.len(),
    ensures
        kept(s, keep) == Seq::new(s.len(), |i: int| (s[i], keep[i])).filter(|p: (T, bool)| p.1).map_values(
            |p: (T, bool)| p.0,
        ),
    decreases s.len(),
{
    reveal(Seq::filter);
    let pairs = Seq::new(s.len(), |i: int| (s[i], keep[i]));
    if s.len() > 0 {
        lemma_kept(s.drop_last(), keep.drop_last());
        let prev = Seq::new(s.drop_last().len(), |i: int| (s.drop_last()[i], keep.drop_last()[i]));
        assert(pairs.drop_last() =~= prev);
        assert(pairs.last() == (s.last(), keep.last()));
        let f = pairs.filter(|p: (T, bool)| p.1);
        let fp = prev.filter(|p: (T, bool)| p.1);
        if keep.last() {
            assert(f == fp.push(pairs.last()));
            assert(f.map_values(|p: (T, bool)| p.0) =~= fp.map_values(|p: (T, bool)| p.0).push(s.last()));
        } else {
            assert(f == fp);
        }
    } else {
        assert(pairs.filter(|p: (T, bool)| p.1) =~= Seq::<(T, bool)>::empty());
        assert(kept(s, keep) =~= Seq::<T>::empty());
    }
}

impl<A> History<A> {
    /// The artifacts, in order.
    pub fn iter(&self) -> (r: Vec<&A>)
        ensures
            r@.len() == self.0@.len(),
            forall|i: int| 0 <= i < r@.len() ==> *r@[i] == self.0@[i],
    {
        let mut r: Vec<&A> = Vec::new();
        r.push(&self.0.head);
        let mut i: usize = 0;
        while i < self.0.tail.len()
            invariant
                i <= self.0.tail@.len(),
                r@.len() == i + 1,
                forall|j: int| 0 <= j <= i ==> *r@[j] == self.0@[j],
            decreases self.0.tail@.len() - i,
        {
            r.push(&self.0.tail[i]);
            i = i + 1;
        }
        r
    }

    /// The position of the first artifact equal to `artifact`, the head
    /// being at 0.
    fn position_of(&self, artifact: &A) -> (r: Option<usize>)
        where
            A: PartialEq,
        ensures
            r matches Some(k) ==> k <= self.0.tail@.len(),
            A::obeys_eq_spec() ==> match r {
                None => forall|i: int|
                    0 <= i < self.0@.len() ==> !(#[trigger] self.0@[i]).eq_spec(artifact),
                Some(k) => {
                    &&& self.0@[k as int].eq_spec(artifact)
                    &&& forall|i: int| 0 <= i < k ==> !(#[trigger] self.0@[i]).eq_spec(artifact)
                },
            },
    {
        let ghost s = self.0@;
        if !(self.0.head != *artifact) {
            return Some(0);
        }
        let n = self.0.tail.len();
        let mut i: usize = 0;
        while i < n
            invariant
                n == self.0.tail@.len(),
                s == self.0@,
                i <= n,
                A::obeys_eq_spec() ==> forall|j: int| 0 <= j <= i ==> !(#[trigger] s[j]).eq_spec(artifact),
            decreases n - i,
        {
            assert(s[i + 1] == self.0.tail@[i as int]);
            if !(self.0.tail[i] != *artifact) {
                return Some(i + 1);
            }
            i = i + 1;
        }
        None
    }

    /// Given that the `History` is in topological order from most recent
    /// artifact to least recent, the history from the first artifact equal
    /// to `artifact` on; `None` when no artifact is equal to it. The
    /// artifacts of the result are clones.
    pub fn find_suffix(&self, artifact: &A) -> (r: Option<Self>)
        where
            A: Clone + PartialEq,
        ensures
            r matches Some(h) ==> h.0@.len() <= self.0@.len() && forall|j: int|
                0 <= j < h.0@.len() ==> cloned(
                    self.0@[self.0@.len() - h.0@.len() + j],
                    #[trigger] h.0@[j],
                ),
            A::obeys_eq_spec() ==> match r {
                None => forall|i: int|
                    0 <= i < self.0@.len() ==> !(#[trigger] self.0@[i]).eq_spec(artifact),
                Some(h) => {
                    let k = self.0@.len() - h.0@.len();
                    &&& self.0@[k].eq_spec(artifact)
                    &&& forall|i: int| 0 <= i < k ==> !(#[trigger] self.0@[i]).eq_spec(artifact)
                },
            },
    {
        let ghost s = self.0@;
        let n = self.0.tail.len();
        let start = self.position_of(artifact);
        match start {
            None => None,
            Some(k) => {
                let mut items: Vec<A> = Vec::new();
                if k == 0 {
                    items.push(self.0.head.clone());
                }
                let mut j: usize = if k == 0 { 0 } else { k - 1 };
                while j < n
                    invariant
                        n == self.0.tail@.len(),
                        s == self.0@,
                        k <= n,
                        k == 0 ==> j <= n && items@.len() == j + 1,
                        k > 0 ==> k - 1 <= j <= n && items@.len() == j - (k - 1),
                        forall|m: int|
                            0 <= m < items@.len() ==> cloned(s[k + m], #[trigger] items@[m]),
                    decreases n - j,
                {
                    items.push(self.0.tail[j].clone());
                    j = j + 1;
                }
                match NonEmpty::from_vec(items) {
                    Some(ne) => Some(History(ne)),
                    None => None,
                }
            },
        }
    }
}

impl<A> History<A> {
    /// The first artifact, in order, whose id under `id_of` equals
    /// `identifier`, cloned; `None` when there is none.
    pub fn find_in_history<Identifier, F>(&self, identifier: &Identifier, id_of: F) -> (r: Option<A>)
        where
            A: Clone,
            F: Fn(&A) -> &Identifier,
            Identifier: PartialEq,
        requires
            forall|a: &A| #[trigger] call_requires(id_of, (a,)),
        ensures
            r matches Some(x) ==> exists|k: int| 0 <= k < self.0@.len() && cloned(self.0@[k], x),
            Identifier::obeys_eq_spec() ==> match r {
                None => found_none(self.0@, id_of, *identifier),
                Some(x) => exists|k: int|
                    found_at(self.0@, id_of, *identifier, k) && cloned(self.0@[k], x),
            },
    {
        let ghost s = self.0@;
        let head_id = id_of(&self.0.head);
        if *identifier == *head_id {
            let found = self.0.head.clone();
            proof {
                assert(s[0] == self.0.head);
                assert(cloned(s[0], found));
                if Identifier::obeys_eq_spec() {
                    assert(id_matches(id_of, *identifier, s[0]));
                    assert(found_at(s, id_of, *identifier, 0));
                }
            }
            return Some(found);
        }
        proof {
            if Identifier::obeys_eq_spec() {
                assert(id_differs(id_of, *identifier, s[0]));
            }
        }
        let n = self.0.tail.len();
        let mut i: usize = 0;
        while i < n
            invariant
                n == self.0.tail@.len(),
                s == self.0@,
                i <= n,
                forall|a: &A| #[trigger] call_requires(id_of, (a,)),
                Identifier::obeys_eq_spec() ==> forall|j: int|
                    0 <= j <= i ==> #[trigger] id_differs(id_of, *identifier, s[j]),
            decreases n - i,
        {
            assert(s[i + 1] == self.0.tail@[i as int]);
            let artifact = &self.0.tail[i];
            let current_id = id_of(artifact);
            if *identifier == *current_id {
                let found = artifact.clone();
                proof {
                    if Identifier::obeys_eq_spec() {
                        assert(id_matches(id_of, *identifier, s[i + 1]));
                        assert(found_at(s, id_of, *identifier, i + 1));
                    }
                }
                return Some(found);
            }
            proof {
                if Identifier::obeys_eq_spec() {
                    assert(id_differs(id_of, *identifier, s[i + 1]));
                }
            }
            i = i + 1;
        }
        None
    }

    /// The histories of `histories`, in order, in which an artifact's id
    /// under `id_of` equals `identifier`.
    pub fn find_in_histories<Identifier, F>(
        histories: Vec<Self>,
        identifier: &Identifier,
        id_of: F,
    ) -> (r: Vec<Self>)
        where
            A: Clone,
            F: Fn(&A) -> &Identifier + Copy,
            Identifier: PartialEq,
        requires
            forall|a: &A| #[trigger] call_requires(id_of, (a,)),
        ensures
            exists|keep: Seq<bool>|
                {
                    &&& keep.len() == histories@.len()
                    &&& r@ == kept(histories@, keep)
                    &&& Identifier::obeys_eq_spec() ==> forall|j: int|
                        0 <= j < keep.len() ==> (#[trigger] keep[j] ==> exists|k: int|
                            found_at(histories@[j].0@, id_of, *identifier, k)) && (!keep[j]
                            ==> found_none(histories@[j].0@, id_of, *identifier))
                },
    {
        let ghost all = histories@;
        let total = histories.len();
        let mut r: Vec<Self> = Vec::new();
        let ghost mut keep: Seq<bool> = Seq::empty();
        let mut rest = histories;
        let mut i: usize = 0;
        assert(all.skip(0) =~= all);
        assert(all.take(0) =~= Seq::<Self>::empty());
        while rest.len() > 0
            invariant
                rest@ == all.skip(i as int),
                all.len() == total,
                i <= all.len(),
                keep.len() == i,
                r@ == kept(all.take(i as int), keep),
                forall|a: &A| #[trigger] call_requires(id_of, (a,)),
                Identifier::obeys_eq_spec() ==> forall|j: int|
                    0 <= j < keep.len() ==> (#[trigger] keep[j] ==> exists|k: int|
                        found_at(all[j].0@, id_of, *identifier, k)) && (!keep[j] ==> found_none(
                        all[j].0@,
                        id_of,
                        *identifier,
                    )),
            decreases rest@.len(),
        {
            let history = rest.remove(0);
            proof {
                assert(history == all[i as int]);
                assert(rest@ =~= all.skip(i + 1));
            }
            let hit = history.find_in_history(identifier, id_of);
            let ghost flag = hit is Some;
            let ghost old_keep = keep;
            let ghost old_r = r@;
            proof {
                keep = keep.push(flag);
                assert(keep.drop_last() =~= old_keep);
            }
            if hit.is_some() {
                r.push(history);
            }
            proof {
                let t = all.take(i + 1);
                assert(t.drop_last() =~= all.take(i as int));
                assert(t.last() == all[i as int]);
                assert(kept(t, keep) == if flag {
                    kept(all.take(i as int), old_keep).push(all[i as int])
                } else {
                    kept(all.take(i as int), old_keep)
                });
            }
            i = i + 1;
        }
        proof {
            assert(all.take(i as int) =~= all);
        }
        r
    }
}

} // verus!
